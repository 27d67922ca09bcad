//! The colour markup of the ASCII art files.
//!
//! An art file is plain text in which
//! - `${name}` switches the colour of the text that follows to the colour
//!   called `name`, when `colored` knows that name, and leaves it as it was
//!   otherwise; the code itself shows nothing;
//! - `\c` shows the character `c` as it is;
//! - `$c`, where `c` is not `{`, shows `$` and then `c` as it is.
//!
//! Text starts out blue. A colour is carried as the name that selected it.

use vstd::prelude::*;
use colored::Color;

verus! {

/// A character as `str::to_lowercase` leaves it, where that is what decides
/// whether a name is one of `colored`'s colour names: `A` to `Z` become `a`
/// to `z`, the Kelvin sign becomes `k`, and every other character is kept.
/// (Every other character that lower-casing changes is outside ASCII and
/// stays outside it, so it cannot be part of a colour name either way.)
pub open spec fn color_name_lower(c: char) -> char {
    if 'A' <= c && c <= 'Z' {
        ((c as u32) + 32) as char
    } else if c == '\u{212A}' {
        'k'
    } else {
        c
    }
}

/// The colour names of `colored`, in lower case.
pub open spec fn is_color_word(n: Seq<char>) -> bool {
    ||| n == "black"@
    ||| n == "red"@
    ||| n == "green"@
    ||| n == "yellow"@
    ||| n == "blue"@
    ||| n == "magenta"@
    ||| n == "purple"@
    ||| n == "cyan"@
    ||| n == "white"@
    ||| n == "bright black"@
    ||| n == "bright red"@
    ||| n == "bright green"@
    ||| n == "bright yellow"@
    ||| n == "bright blue"@
    ||| n == "bright magenta"@
    ||| n == "bright cyan"@
    ||| n == "bright white"@
}

/// Whether `colored` knows `name` as the name of one of its colours: the
/// name, lower-cased, is in its table of colour names.
pub open spec fn names_color(name: Seq<char>) -> bool {
    is_color_word(name.map_values(|c: char| color_name_lower(c)))
}

/// Calls `<colored::Color as FromStr>::from_str` on `name` and reports whether
/// it succeeded. The crate lower-cases the name with `str::to_lowercase` and
/// compares it against its table of seventeen colour names; the contract
/// states that table.
#[verifier::external_body]
fn is_color_name(name: &str) -> (known: bool)
    ensures
        known == names_color(name@),
{
    name.parse::<Color>().is_ok()
}

/// The colour in force after a colour code: the requested name when it was
/// accepted, the current colour otherwise.
pub fn switch_color(current: String, requested: String, accepted: bool) -> (color: String)
    ensures
        color@ == (if accepted { requested@ } else { current@ }),
{
    if accepted {
        requested
    } else {
        current
    }
}

/// The coloured characters that the markup `s` shows when its text starts
/// out in the colour `color`. Where a colour code is never closed, the
/// characters shown end before it.
pub open spec fn rendered(s: Seq<char>, color: Seq<char>) -> Seq<(char, Seq<char>)>
    decreases s.len(), 1int,
{
    if s.len() == 0 {
        seq![]
    } else if s[0] == '$' {
        if s.len() == 1 {
            seq![]
        } else if s[1] == '{' {
            rendered_code(seq![], s.skip(2), color)
        } else {
            seq![('$', color), (s[1], color)] + rendered(s.skip(2), color)
        }
    } else if s[0] == '\\' {
        if s.len() == 1 {
            seq![]
        } else {
            seq![(s[1], color)] + rendered(s.skip(2), color)
        }
    } else {
        seq![(s[0], color)] + rendered(s.skip(1), color)
    }
}

/// The coloured characters shown by `s`, the text that follows the part
/// `name` of a colour code that has been read so far.
pub open spec fn rendered_code(name: Seq<char>, s: Seq<char>, color: Seq<char>) -> Seq<
    (char, Seq<char>),
>
    decreases s.len(), 0int,
{
    if s.len() == 0 {
        seq![]
    } else if s[0] == '}' {
        let next = if names_color(name) {
            name
        } else {
            color
        };
        if s.len() == 1 {
            seq![]
        } else {
            seq![(s[1], next)] + rendered(s.skip(2), next)
        }
    } else {
        rendered_code(name.push(s[0]), s.skip(1), color)
    }
}

/// Whether reading the markup `s` reaches a colour code that is never
/// closed.
pub open spec fn stalls(s: Seq<char>) -> bool
    decreases s.len(), 1int,
{
    if s.len() <= 1 {
        false
    } else if s[0] == '$' {
        if s[1] == '{' {
            stalls_in_code(s.skip(2))
        } else {
            stalls(s.skip(2))
        }
    } else if s[0] == '\\' {
        stalls(s.skip(2))
    } else {
        stalls(s.skip(1))
    }
}

/// Whether reading `s`, the text inside an open colour code, reaches a
/// colour code that is never closed.
pub open spec fn stalls_in_code(s: Seq<char>) -> bool
    decreases s.len(), 0int,
{
    if s.len() == 0 {
        true
    } else if s[0] == '}' {
        s.len() > 1 && stalls(s.skip(2))
    } else {
        stalls_in_code(s.skip(1))
    }
}

/// Each coloured character with its colour's name taken by its view.
pub open spec fn item_views(items: Seq<(char, String)>) -> Seq<(char, Seq<char>)> {
    items.map_values(|p: (char, String)| (p.0, p.1@))
}

/// A reader of colour markup that hands out one coloured character at a
/// time.
pub struct ColorCodeIter {
    chars: Vec<char>,
    pos: usize,
    color: String,
    remainder: Option<char>,
}

impl ColorCodeIter {
    #[verifier::type_invariant]
    spec fn inv(self) -> bool {
        self.pos <= self.chars.len()
    }

    /// The markup not read yet.
    pub closed spec fn rest(&self) -> Seq<char> {
        self.chars@.skip(self.pos as int)
    }

    /// The name of the colour in force.
    pub closed spec fn current_color(&self) -> Seq<char> {
        self.color@
    }

    /// The character the reader holds back to hand out next, if any: the one
    /// that followed a `$` other than `{`.
    pub closed spec fn held(&self) -> Option<char> {
        self.remainder
    }

    /// The coloured characters that the reader still has to hand out.
    pub closed spec fn pending(&self) -> Seq<(char, Seq<char>)> {
        match self.remainder {
            Some(r) => seq![(r, self.color@)] + rendered(self.rest(), self.color@),
            None => rendered(self.rest(), self.color@),
        }
    }

    /// Whether the next step of reading opens a colour code that is never
    /// closed.
    pub closed spec fn stuck(&self) -> bool {
        &&& self.remainder is None
        &&& self.rest().len() >= 2
        &&& self.rest()[0] == '$'
        &&& self.rest()[1] == '{'
        &&& !self.rest().skip(2).contains('}')
    }

    /// A reader at the start of the markup `chars`, in blue.
    pub fn new(chars: Vec<char>) -> (it: Self)
        ensures
            it.rest() == chars@,
            it.current_color() == "blue"@,
            it.held() is None,
            it.pending() == rendered(chars@, "blue"@),
            it.stuck() <==> (chars@.len() >= 2 && chars@[0] == '$' && chars@[1] == '{'
                && !chars@.skip(2).contains('}')),
    {
        let it = ColorCodeIter {
            chars,
            pos: 0,
            color: String::from_str("blue"),
            remainder: None,
        };
        assert(it.rest() =~= chars@);
        it
    }

    /// Whether the next call of `next` would open a colour code that is
    /// never closed, where reading would not come to an end.
    pub fn is_stuck(&self) -> (b: bool)
        ensures
            b == self.stuck(),
    {
        proof {
            use_type_invariant(self);
        }
        if self.remainder.is_some() {
            return false;
        }
        let len = self.chars.len();
        if len - self.pos < 2 || self.chars[self.pos] != '$' || self.chars[self.pos + 1] != '{' {
            return false;
        }
        let mut i = self.pos + 2;
        while i < len
            invariant
                self.pos + 2 <= i <= len,
                len == self.chars.len(),
                forall|j: int| self.pos + 2 <= j < i ==> self.chars@[j] != '}',
            decreases len - i,
        {
            if self.chars[i] == '}' {
                assert(self.rest().skip(2)[i - self.pos - 2] == '}');
                return false;
            }
            i = i + 1;
        }
        assert forall|k: int| 0 <= k < self.rest().skip(2).len() implies self.rest().skip(2)[k]
            != '}' by {
            assert(self.rest().skip(2)[k] == self.chars@[self.pos + 2 + k]);
        }
        true
    }

    /// Hands out the next coloured character, or `None` at the end of the
    /// markup.
    pub fn next(&mut self) -> (item: Option<(char, String)>)
        requires
            !old(self).stuck(),
        ensures
            item is None <==> (old(self).held() is None && shows_nothing(old(self).rest())),
            old(self).pending().len() == 0 ==> item is None && final(self).pending().len() == 0,
            old(self).pending().len() > 0 ==> (item matches Some((c, name)) && c
                == old(self).pending()[0].0 && name@ == old(self).pending()[0].1),
            old(self).pending().len() > 0 ==> final(self).pending() == old(
                self,
            ).pending().drop_first(),
            item is None ==> final(self).rest().len() == 0,
            stalls(final(self).rest()) == stalls(old(self).rest()),
    {
        proof {
            use_type_invariant(&*self);
            self.lemma_hands_out_nothing();
        }
        let ghost s = self.rest();
        let ghost c0 = self.color@;
        if let Some(r) = self.remainder {
            self.remainder = None;
            assert((seq![(r, c0)] + rendered(s, c0)).drop_first() =~= rendered(s, c0));
            return Some((r, self.color.clone()));
        }
        let len = self.chars.len();
        let mut pos = self.pos;
        if pos == len {
            return None;
        }
        let c = self.chars[pos];
        pos = pos + 1;
        assert(s[0] == c);
        assert(s.skip(1) =~= self.chars@.skip(pos as int));
        if c == '$' {
            if pos == len {
                self.pos = pos;
                assert(self.rest().len() == 0);
                return None;
            }
            let d = self.chars[pos];
            pos = pos + 1;
            assert(s[1] == d);
            assert(s.skip(2) =~= self.chars@.skip(pos as int));
            if d == '{' {
                let mut name = String::new();
                proof {
                    let k = choose|k: int| 0 <= k < s.skip(2).len() && s.skip(2)[k] == '}';
                    assert(self.chars@[pos + k] == '}');
                }
                while self.chars[pos] != '}'
                    invariant
                        pos <= len,
                        len == self.chars.len(),
                        exists|j: int| pos <= j < len && self.chars@[j] == '}',
                        rendered(s, c0) == rendered_code(
                            name@,
                            self.chars@.skip(pos as int),
                            c0,
                        ),
                        stalls(s) == stalls_in_code(self.chars@.skip(pos as int)),
                    decreases len - pos,
                {
                    let e = self.chars[pos];
                    let ghost t = self.chars@.skip(pos as int);
                    assert(t[0] == e);
                    pos = pos + 1;
                    assert(t.skip(1) =~= self.chars@.skip(pos as int));
                    name.push(e);
                }
                let ghost t = self.chars@.skip(pos as int);
                let ghost next_color = if names_color(name@) {
                    name@
                } else {
                    c0
                };
                pos = pos + 1;
                let accepted = is_color_name(name.as_str());
                let current = self.color.clone();
                self.color = switch_color(current, name, accepted);
                self.pos = pos;
                if pos == len {
                    assert(t.len() == 1);
                    assert(self.rest().len() == 0);
                    return None;
                }
                let f = self.chars[pos];
                pos = pos + 1;
                self.pos = pos;
                assert(t[1] == f);
                assert(t.skip(2) =~= self.chars@.skip(pos as int));
                assert((seq![(f, next_color)] + rendered(t.skip(2), next_color)).drop_first()
                    =~= rendered(t.skip(2), next_color));
                return Some((f, self.color.clone()));
            } else {
                self.remainder = Some(d);
                self.pos = pos;
                assert((seq![('$', c0), (d, c0)] + rendered(s.skip(2), c0)).drop_first() =~= seq![
                    (d, c0),
                ] + rendered(s.skip(2), c0));
                return Some(('$', self.color.clone()));
            }
        } else if c == '\\' {
            if pos == len {
                self.pos = pos;
                assert(self.rest().len() == 0);
                return None;
            }
            let d = self.chars[pos];
            pos = pos + 1;
            self.pos = pos;
            assert(s[1] == d);
            assert(s.skip(2) =~= self.chars@.skip(pos as int));
            assert((seq![(d, c0)] + rendered(s.skip(2), c0)).drop_first() =~= rendered(
                s.skip(2),
                c0,
            ));
            return Some((d, self.color.clone()));
        } else {
            self.pos = pos;
            assert((seq![(c, c0)] + rendered(s.skip(1), c0)).drop_first() =~= rendered(
                s.skip(1),
                c0,
            ));
            return Some((c, self.color.clone()));
        }
    }
}


/// A colour code whose text holds no `}` is never closed.
proof fn lemma_unclosed_code_stalls(s: Seq<char>)
    requires
        !s.contains('}'),
    ensures
        stalls_in_code(s),
    decreases s.len(),
{
    if s.len() > 0 {
        assert(s[0] != '}') by {
            if s[0] == '}' {
                assert(s.contains(s[0]));
            }
        }
        assert(!s.skip(1).contains('}')) by {
            if s.skip(1).contains('}') {
                let i = choose|i: int| 0 <= i < s.skip(1).len() && s.skip(1)[i] == '}';
                assert(s[i + 1] == '}');
            }
        }
        lemma_unclosed_code_stalls(s.skip(1));
    }
}

impl ColorCodeIter {
    /// A reader is stuck only on markup that stalls: where the markup left
    /// closes every colour code, `next` can be called.
    pub proof fn lemma_stuck_stalls(&self)
        ensures
            self.stuck() ==> stalls(self.rest()),
            !stalls(self.rest()) ==> !self.stuck(),
            self.stuck() ==> self.pending().len() == 0,
    {
        if self.stuck() {
            let r = self.rest();
            lemma_unclosed_code_stalls(r.skip(2));
            assert forall|i: int| 2 <= i < r.len() - 1 implies r[i] != '}' by {
                assert(r.skip(2)[i - 2] == r[i]);
                if r[i] == '}' {
                    assert(r.skip(2).contains('}'));
                }
            }
            lemma_shows_nothing(r, self.color@);
        }
    }

    /// The reader has nothing left to hand out exactly when it holds no
    /// character back and the markup left shows nothing.
    pub proof fn lemma_hands_out_nothing(&self)
        ensures
            self.pending().len() == 0 <==> (self.held() is None && shows_nothing(self.rest())),
    {
        lemma_shows_nothing(self.rest(), self.color@);
    }
}

/// Reads the whole markup `chars`: the coloured characters it shows, and
/// whether it then opens a colour code that is never closed, on which reading
/// would never come to an end.
pub fn colorize(chars: Vec<char>) -> (out: (Vec<(char, String)>, bool))
    ensures
        item_views(out.0@) == rendered(chars@, "blue"@),
        out.1 == stalls(chars@),
{
    let ghost text = chars@;
    let mut it = ColorCodeIter::new(chars);
    let mut items: Vec<(char, String)> = Vec::new();
    assert(item_views(items@) =~= seq![]);
    assert(item_views(items@) + it.pending() =~= rendered(text, "blue"@));
    loop
        invariant
            item_views(items@) + it.pending() == rendered(text, "blue"@),
            stalls(it.rest()) == stalls(text),
            text == chars@,
        ensures
            !stalls(text),
            item_views(items@) == rendered(text, "blue"@),
        decreases it.pending().len(),
    {
        if it.is_stuck() {
            proof {
                it.lemma_stuck_stalls();
                assert(item_views(items@) + it.pending() =~= item_views(items@));
            }
            return (items, true);
        }
        let ghost before = it.pending();
        let ghost done = items@;
        match it.next() {
            Some(p) => {
                items.push(p);
                assert(item_views(items@) =~= item_views(done).push(before[0]));
                assert(item_views(items@) + it.pending() =~= item_views(done) + before);
            },
            None => {
                assert(item_views(items@) + it.pending() =~= item_views(items@));
                break ;
            },
        }
    }
    (items, false)
}

/// Whether the markup `s` shows nothing at all: it is empty, a lone `$` or
/// `\`, or it opens a colour code and holds no `}` before its last
/// character.
pub open spec fn shows_nothing(s: Seq<char>) -> bool {
    ||| s.len() == 0
    ||| (s.len() == 1 && (s[0] == '$' || s[0] == '\\'))
    ||| (s.len() >= 2 && s[0] == '$' && s[1] == '{' && forall|i: int|
        2 <= i < s.len() - 1 ==> s[i] != '}')
}

proof fn lemma_code_shows_nothing(name: Seq<char>, t: Seq<char>, color: Seq<char>)
    ensures
        rendered_code(name, t, color).len() == 0 <==> (forall|i: int|
            0 <= i < t.len() - 1 ==> t[i] != '}'),
    decreases t.len(),
{
    if t.len() > 0 && t[0] != '}' {
        lemma_code_shows_nothing(name.push(t[0]), t.skip(1), color);
        let u = t.skip(1);
        if forall|i: int| 0 <= i < t.len() - 1 ==> t[i] != '}' {
            assert forall|i: int| 0 <= i < u.len() - 1 implies u[i] != '}' by {
                assert(u[i] == t[i + 1]);
            }
        }
        if forall|i: int| 0 <= i < u.len() - 1 ==> u[i] != '}' {
            assert forall|i: int| 0 <= i < t.len() - 1 implies t[i] != '}' by {
                if i > 0 {
                    assert(t[i] == u[i - 1]);
                }
            }
        }
    } else if t.len() > 1 {
        assert(t[0] == '}');
    }
}

/// The markup shows nothing exactly when `shows_nothing` says so.
pub proof fn lemma_shows_nothing(s: Seq<char>, color: Seq<char>)
    ensures
        rendered(s, color).len() == 0 <==> shows_nothing(s),
{
    if s.len() >= 2 && s[0] == '$' && s[1] == '{' {
        let t = s.skip(2);
        lemma_code_shows_nothing(seq![], t, color);
        if forall|i: int| 0 <= i < t.len() - 1 ==> t[i] != '}' {
            assert forall|i: int| 2 <= i < s.len() - 1 implies s[i] != '}' by {
                assert(s[i] == t[i - 2]);
            }
        }
        if forall|i: int| 2 <= i < s.len() - 1 ==> s[i] != '}' {
            assert forall|i: int| 0 <= i < t.len() - 1 implies t[i] != '}' by {
                assert(t[i] == s[i + 2]);
            }
        }
    }
}

/// Text without `$` and `\` shows each of its characters as it is, all in
/// the colour in force.
pub proof fn lemma_plain_text_keeps_color(s: Seq<char>, color: Seq<char>)
    requires
        forall|i: int| 0 <= i < s.len() ==> s[i] != '$' && s[i] != '\\',
    ensures
        rendered(s, color) == s.map_values(|c: char| (c, color)),
    decreases s.len(),
{
    if s.len() > 0 {
        lemma_plain_text_keeps_color(s.skip(1), color);
        assert(rendered(s, color) =~= s.map_values(|c: char| (c, color)));
    } else {
        assert(rendered(s, color) =~= s.map_values(|c: char| (c, color)));
    }
}

/// Reading a colour code's name collects it character by character.
proof fn lemma_read_code_name(acc: Seq<char>, name: Seq<char>, rest: Seq<char>, color: Seq<char>)
    requires
        !name.contains('}'),
    ensures
        rendered_code(acc, name + rest, color) == rendered_code(acc + name, rest, color),
    decreases name.len(),
{
    if name.len() == 0 {
        assert(name + rest =~= rest);
        assert(acc + name =~= acc);
    } else {
        assert(name[0] != '}') by {
            assert(name.contains(name[0]));
        }
        assert(!name.skip(1).contains('}')) by {
            if name.skip(1).contains('}') {
                let i = choose|i: int| 0 <= i < name.skip(1).len() && name.skip(1)[i] == '}';
                assert(name[i + 1] == '}');
            }
        }
        assert((name + rest)[0] == name[0]);
        assert((name + rest).skip(1) =~= name.skip(1) + rest);
        lemma_read_code_name(acc.push(name[0]), name.skip(1), rest, color);
        assert(acc.push(name[0]) + name.skip(1) =~= acc + name);
    }
}

/// A colour code `${name}` shows nothing: the character after it shows in the
/// colour called `name` where `colored` knows that name, and in the colour in
/// force otherwise, and so does the text that follows.
pub proof fn lemma_color_code(name: Seq<char>, x: char, t: Seq<char>, color: Seq<char>)
    requires
        !name.contains('}'),
    ensures
        ({
            let next = if names_color(name) {
                name
            } else {
                color
            };
            rendered(seq!['$', '{'] + name + seq!['}', x] + t, color) == seq![(x, next)]
                + rendered(t, next)
        }),
{
    let s = seq!['$', '{'] + name + seq!['}', x] + t;
    assert(s[0] == '$' && s[1] == '{');
    assert(s.skip(2) =~= name + (seq!['}', x] + t));
    lemma_read_code_name(seq![], name, seq!['}', x] + t, color);
    assert(Seq::<char>::empty() + name =~= name);
    assert((seq!['}', x] + t).skip(2) =~= t);
}

/// `\c` shows the character `c` as it is, in the colour in force.
pub proof fn lemma_escape(x: char, t: Seq<char>, color: Seq<char>)
    ensures
        rendered(seq!['\\', x] + t, color) == seq![(x, color)] + rendered(t, color),
{
    let s = seq!['\\', x] + t;
    assert(s.skip(2) =~= t);
}

/// A character other than `$` and `\` shows as it is, in the colour in
/// force, and the text after it shows as it would alone.
pub proof fn lemma_plain_char(c: char, t: Seq<char>, color: Seq<char>)
    requires
        c != '$',
        c != '\\',
    ensures
        rendered(seq![c] + t, color) == seq![(c, color)] + rendered(t, color),
{
    let s = seq![c] + t;
    assert(s[0] == c);
    assert(s.skip(1) =~= t);
}

/// Markup that is empty shows nothing.
pub proof fn lemma_empty_markup(color: Seq<char>)
    ensures
        rendered(Seq::<char>::empty(), color) == Seq::<(char, Seq<char>)>::empty(),
{
}

/// `$c`, where `c` is not `{`, shows `$` and `c` as they are, in the colour in
/// force.
pub proof fn lemma_lone_dollar(x: char, t: Seq<char>, color: Seq<char>)
    requires
        x != '{',
    ensures
        rendered(seq!['$', x] + t, color) == seq![('$', color), (x, color)] + rendered(t, color),
{
    let s = seq!['$', x] + t;
    assert(s.skip(2) =~= t);
}

/// The colour in force after reading the markup `s` from the colour `color`:
/// the name of the last colour code in `s` that `colored` knows, or `color`
/// where there is none. A code that is not finished at the end of `s`
/// changes nothing.
pub open spec fn color_after(s: Seq<char>, color: Seq<char>) -> Seq<char>
    decreases s.len(), 1int,
{
    if s.len() <= 1 {
        color
    } else if s[0] == '$' {
        if s[1] == '{' {
            color_after_code(seq![], s.skip(2), color)
        } else {
            color_after(s.skip(2), color)
        }
    } else if s[0] == '\\' {
        color_after(s.skip(2), color)
    } else {
        color_after(s.skip(1), color)
    }
}

/// The colour in force after reading `t`, the text that follows the part
/// `name` of a colour code that has been read so far.
pub open spec fn color_after_code(name: Seq<char>, t: Seq<char>, color: Seq<char>) -> Seq<char>
    decreases t.len(), 0int,
{
    if t.len() == 0 {
        color
    } else if t[0] == '}' {
        let next = if names_color(name) {
            name
        } else {
            color
        };
        if t.len() == 1 {
            next
        } else {
            color_after(t.skip(2), next)
        }
    } else {
        color_after_code(name.push(t[0]), t.skip(1), color)
    }
}

/// The characters of coloured characters.
pub open spec fn shown_chars(items: Seq<(char, Seq<char>)>) -> Seq<char> {
    items.map_values(|p: (char, Seq<char>)| p.0)
}

/// `idx` picks the characters `a` out of `b`, in order: `a[k]` is `b[idx[k]]`,
/// and the positions increase.
pub open spec fn picks(idx: Seq<int>, a: Seq<char>, b: Seq<char>) -> bool {
    &&& idx.len() == a.len()
    &&& forall|k: int| 0 <= k < idx.len() ==> 0 <= #[trigger] idx[k] < b.len() && b[idx[k]] == a[k]
    &&& forall|k: int, l: int| 0 <= k < l < idx.len() ==> #[trigger] idx[k] < #[trigger] idx[l]
}

/// Whether `a` is made of characters of `b`, taken in order, each at most
/// once.
pub open spec fn is_subsequence(a: Seq<char>, b: Seq<char>) -> bool {
    exists|idx: Seq<int>| picks(idx, a, b)
}

proof fn lemma_picks_after(
    pre: Seq<int>,
    pa: Seq<char>,
    idx: Seq<int>,
    a: Seq<char>,
    b: Seq<char>,
    n: int,
)
    requires
        0 <= n <= b.len(),
        picks(pre, pa, b),
        forall|k: int| 0 <= k < pre.len() ==> pre[k] < n,
        picks(idx, a, b.skip(n)),
    ensures
        picks(pre + idx.map_values(|i: int| i + n), pa + a, b),
{
    let all = pre + idx.map_values(|i: int| i + n);
    assert forall|k: int| 0 <= k < all.len() implies 0 <= #[trigger] all[k] < b.len() && b[all[k]]
        == (pa + a)[k] by {
        if k >= pre.len() {
            let j = k - pre.len();
            assert(all[k] == idx[j] + n);
            assert(b.skip(n)[idx[j]] == b[idx[j] + n]);
        }
    }
    assert forall|k: int, l: int| 0 <= k < l < all.len() implies #[trigger] all[k]
        < #[trigger] all[l] by {
        if l >= pre.len() {
            assert(all[l] == idx[l - pre.len()] + n);
            if k >= pre.len() {
                assert(all[k] == idx[k - pre.len()] + n);
            }
        }
    }
}

/// The positions in the markup `s` of the characters it shows, and their
/// colours: the characters shown are characters of `s`, taken in order, each
/// at most once, and each shows in the colour in force after the markup
/// before it, which is the last colour code before it that `colored` knows,
/// or `color` where there is none.
pub proof fn lemma_shown_positions(s: Seq<char>, color: Seq<char>) -> (idx: Seq<int>)
    ensures
        picks(idx, shown_chars(rendered(s, color)), s),
        forall|k: int|
            0 <= k < idx.len() ==> #[trigger] rendered(s, color)[k].1 == color_after(
                s.take(idx[k]),
                color,
            ),
    decreases s.len(), 1int,
{
    let r = rendered(s, color);
    if s.len() == 0 || (s.len() == 1 && (s[0] == '$' || s[0] == '\\')) {
        assert(r.len() == 0);
        let idx = Seq::<int>::empty();
        assert(shown_chars(r) =~= Seq::<char>::empty());
        idx
    } else if s[0] == '$' && s[1] == '{' {
        let t = s.skip(2);
        let inner = lemma_code_positions(seq![], t, color);
        lemma_picks_after(seq![], seq![], inner, shown_chars(r), s, 2);
        let idx = Seq::<int>::empty() + inner.map_values(|i: int| i + 2);
        assert(Seq::<char>::empty() + shown_chars(r) =~= shown_chars(r));
        assert forall|k: int| 0 <= k < idx.len() implies #[trigger] r[k].1 == color_after(
            s.take(idx[k]),
            color,
        ) by {
            let u = s.take(idx[k]);
            assert(idx[k] == inner[k] + 2);
            assert(u[0] == '$' && u[1] == '{');
            assert(u.skip(2) =~= t.take(inner[k]));
        }
        idx
    } else if s[0] == '$' {
        let rest = rendered(s.skip(2), color);
        let inner = lemma_shown_positions(s.skip(2), color);
        let pre = seq![0int, 1int];
        let pa = seq!['$', s[1]];
        assert(shown_chars(r) =~= pa + shown_chars(rest));
        lemma_picks_after(pre, pa, inner, shown_chars(rest), s, 2);
        let idx = pre + inner.map_values(|i: int| i + 2);
        assert forall|k: int| 0 <= k < idx.len() implies #[trigger] r[k].1 == color_after(
            s.take(idx[k]),
            color,
        ) by {
            if k >= 2 {
                let u = s.take(idx[k]);
                assert(idx[k] == inner[k - 2] + 2);
                assert(r[k] == rest[k - 2]);
                assert(u[0] == '$' && u[1] == s[1]);
                assert(u.skip(2) =~= s.skip(2).take(inner[k - 2]));
            }
        }
        idx
    } else if s[0] == '\\' {
        let rest = rendered(s.skip(2), color);
        let inner = lemma_shown_positions(s.skip(2), color);
        let pre = seq![1int];
        let pa = seq![s[1]];
        assert(shown_chars(r) =~= pa + shown_chars(rest));
        lemma_picks_after(pre, pa, inner, shown_chars(rest), s, 2);
        let idx = pre + inner.map_values(|i: int| i + 2);
        assert forall|k: int| 0 <= k < idx.len() implies #[trigger] r[k].1 == color_after(
            s.take(idx[k]),
            color,
        ) by {
            if k >= 1 {
                let u = s.take(idx[k]);
                assert(idx[k] == inner[k - 1] + 2);
                assert(r[k] == rest[k - 1]);
                assert(u[0] == '\\');
                assert(u.skip(2) =~= s.skip(2).take(inner[k - 1]));
            } else {
                assert(s.take(1).len() == 1);
            }
        }
        idx
    } else {
        let rest = rendered(s.skip(1), color);
        let inner = lemma_shown_positions(s.skip(1), color);
        let pre = seq![0int];
        let pa = seq![s[0]];
        assert(shown_chars(r) =~= pa + shown_chars(rest));
        lemma_picks_after(pre, pa, inner, shown_chars(rest), s, 1);
        let idx = pre + inner.map_values(|i: int| i + 1);
        assert forall|k: int| 0 <= k < idx.len() implies #[trigger] r[k].1 == color_after(
            s.take(idx[k]),
            color,
        ) by {
            if k >= 1 {
                let u = s.take(idx[k]);
                assert(idx[k] == inner[k - 1] + 1);
                assert(r[k] == rest[k - 1]);
                assert(u.skip(1) =~= s.skip(1).take(inner[k - 1]));
                if inner[k - 1] == 0 {
                    assert(s.skip(1).take(0).len() == 0);
                } else {
                    assert(u[0] == s[0]);
                }
            }
        }
        idx
    }
}

/// The positions in `t`, the text that follows the part `name` of a colour
/// code, of the characters it shows, and their colours.
proof fn lemma_code_positions(name: Seq<char>, t: Seq<char>, color: Seq<char>) -> (idx: Seq<
    int,
>)
    ensures
        picks(idx, shown_chars(rendered_code(name, t, color)), t),
        forall|k: int|
            0 <= k < idx.len() ==> #[trigger] rendered_code(name, t, color)[k].1
                == color_after_code(name, t.take(idx[k]), color),
    decreases t.len(), 0int,
{
    let r = rendered_code(name, t, color);
    if t.len() == 0 || (t[0] == '}' && t.len() == 1) {
        assert(r.len() == 0);
        assert(shown_chars(r) =~= Seq::<char>::empty());
        Seq::<int>::empty()
    } else if t[0] == '}' {
        let next = if names_color(name) {
            name
        } else {
            color
        };
        let rest = rendered(t.skip(2), next);
        let inner = lemma_shown_positions(t.skip(2), next);
        let pre = seq![1int];
        let pa = seq![t[1]];
        assert(shown_chars(r) =~= pa + shown_chars(rest));
        lemma_picks_after(pre, pa, inner, shown_chars(rest), t, 2);
        let idx = pre + inner.map_values(|i: int| i + 2);
        assert forall|k: int| 0 <= k < idx.len() implies #[trigger] r[k].1 == color_after_code(
            name,
            t.take(idx[k]),
            color,
        ) by {
            let u = t.take(idx[k]);
            assert(u[0] == '}');
            if k >= 1 {
                assert(idx[k] == inner[k - 1] + 2);
                assert(r[k] == rest[k - 1]);
                assert(u.skip(2) =~= t.skip(2).take(inner[k - 1]));
            } else {
                assert(u.len() == 1);
            }
        }
        idx
    } else {
        let inner = lemma_code_positions(name.push(t[0]), t.skip(1), color);
        lemma_picks_after(seq![], seq![], inner, shown_chars(r), t, 1);
        let idx = Seq::<int>::empty() + inner.map_values(|i: int| i + 1);
        assert(Seq::<char>::empty() + shown_chars(r) =~= shown_chars(r));
        assert forall|k: int| 0 <= k < idx.len() implies #[trigger] r[k].1 == color_after_code(
            name,
            t.take(idx[k]),
            color,
        ) by {
            let u = t.take(idx[k]);
            assert(idx[k] == inner[k] + 1);
            assert(u[0] == t[0]);
            assert(u.skip(1) =~= t.skip(1).take(inner[k]));
        }
        idx
    }
}

/// The characters that the markup shows are characters of the markup, taken
/// in order, each at most once; so there are no more of them than it has
/// characters.
pub proof fn lemma_shown_subsequence(s: Seq<char>, color: Seq<char>)
    ensures
        is_subsequence(shown_chars(rendered(s, color)), s),
        rendered(s, color).len() <= s.len(),
{
    let idx = lemma_shown_positions(s, color);
    assert(picks(idx, shown_chars(rendered(s, color)), s));
    lemma_increasing_positions(idx, s.len() as int);
}

proof fn lemma_increasing_positions(idx: Seq<int>, n: int)
    requires
        0 <= n,
        forall|k: int| 0 <= k < idx.len() ==> 0 <= #[trigger] idx[k] < n,
        forall|k: int, l: int| 0 <= k < l < idx.len() ==> #[trigger] idx[k] < #[trigger] idx[l],
    ensures
        idx.len() <= n,
    decreases idx.len(),
{
    if idx.len() > 0 {
        let front = idx.drop_last();
        assert forall|k: int| 0 <= k < front.len() implies 0 <= #[trigger] front[k] < idx.last() by {
            assert(front[k] == idx[k]);
            assert(idx[k] < idx[idx.len() - 1]);
        }
        assert forall|k: int, l: int| 0 <= k < l < front.len() implies #[trigger] front[k]
            < #[trigger] front[l] by {
            assert(front[k] == idx[k] && front[l] == idx[l]);
        }
        lemma_increasing_positions(front, idx.last());
        assert(0 <= idx[idx.len() - 1] < n);
        assert(idx.last() == idx[idx.len() - 1]);
    }
}

/// The colour in force is always the colour reading started in or a colour
/// name that `colored` knows.
pub proof fn lemma_color_is_known(s: Seq<char>, color: Seq<char>)
    ensures
        color_after(s, color) == color || names_color(color_after(s, color)),
    decreases s.len(), 1int,
{
    if s.len() > 1 {
        if s[0] == '$' && s[1] == '{' {
            lemma_code_color_is_known(seq![], s.skip(2), color);
        } else if s[0] == '$' || s[0] == '\\' {
            lemma_color_is_known(s.skip(2), color);
        } else {
            lemma_color_is_known(s.skip(1), color);
        }
    }
}

proof fn lemma_code_color_is_known(name: Seq<char>, t: Seq<char>, color: Seq<char>)
    ensures
        color_after_code(name, t, color) == color || names_color(color_after_code(name, t, color)),
    decreases t.len(), 0int,
{
    if t.len() > 0 {
        if t[0] == '}' {
            let next = if names_color(name) {
                name
            } else {
                color
            };
            if t.len() > 1 {
                lemma_color_is_known(t.skip(2), next);
            }
        } else {
            lemma_code_color_is_known(name.push(t[0]), t.skip(1), color);
        }
    }
}

/// Reading stalls only at a colour code that is never closed: plain
/// characters, escapes, `$c` and closed colour codes do not stall it, and a
/// colour code whose text holds no `}` does.
pub proof fn lemma_stalls_only_at_open_code(
    c: char,
    x: char,
    name: Seq<char>,
    t: Seq<char>,
)
    requires
        !name.contains('}'),
    ensures
        c != '$' && c != '\\' ==> stalls(seq![c] + t) == stalls(t),
        stalls(seq!['\\', x] + t) == stalls(t),
        x != '{' ==> stalls(seq!['$', x] + t) == stalls(t),
        stalls(seq!['$', '{'] + name + seq!['}', x] + t) == stalls(t),
        stalls(seq!['$', '{'] + name),
{
    let a = seq![c] + t;
    assert(a[0] == c);
    assert(a.skip(1) =~= t);
    if t.len() == 0 {
        assert(a.len() == 1);
    }
    let b = seq!['\\', x] + t;
    assert(b.skip(2) =~= t);
    let d = seq!['$', x] + t;
    assert(d.skip(2) =~= t);
    let e = seq!['$', '{'] + name + seq!['}', x] + t;
    assert(e[0] == '$' && e[1] == '{');
    assert(e.skip(2) =~= name + (seq!['}', x] + t));
    lemma_stalls_code_name(name, seq!['}', x] + t);
    assert((seq!['}', x] + t).skip(2) =~= t);
    let g = seq!['$', '{'] + name;
    assert(g.skip(2) =~= name);
    lemma_unclosed_code_stalls(name);
}

proof fn lemma_stalls_code_name(name: Seq<char>, rest: Seq<char>)
    requires
        !name.contains('}'),
    ensures
        stalls_in_code(name + rest) == stalls_in_code(rest),
    decreases name.len(),
{
    if name.len() == 0 {
        assert(name + rest =~= rest);
    } else {
        assert(name[0] != '}') by {
            assert(name.contains(name[0]));
        }
        assert(!name.skip(1).contains('}')) by {
            if name.skip(1).contains('}') {
                let i = choose|i: int| 0 <= i < name.skip(1).len() && name.skip(1)[i] == '}';
                assert(name[i + 1] == '}');
            }
        }
        assert((name + rest)[0] == name[0]);
        assert((name + rest).skip(1) =~= name.skip(1) + rest);
        lemma_stalls_code_name(name.skip(1), rest);
    }
}

} // verus!
