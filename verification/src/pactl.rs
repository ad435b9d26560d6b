//! The host side: which `pactl` commands set the volume of a channel.
//!
//! `pactl list <kind>s` prints one block per stream or device; a block opens
//! with a line such as `Sink Input #42` and holds a line such as
//! `application.name = "VLC"`. Every block whose name line contains the
//! channel's name gets `pactl set-<kind>-volume <id> <volume>`.

use vstd::prelude::*;

use crate::text::{
    chars_of, contains, contains_at, find_newline, is_white, lemma_split_lines_at,
    lemma_trim_end_at, lemma_trim_start_at, split_lines, trim_end, trim_start, starts_with, starts_with_at, trim,
    trim_range,
};

verus! {

broadcast use vstd::string::group_string_axioms;

/// The kind of audio endpoint a channel controls.
#[derive(Debug, PartialEq, Eq, Structural, Copy, Clone)]
pub enum Class {
    /// An application's stream.
    App,
    /// A capture device.
    Mic,
    /// A playback device.
    Spk,
}

impl Class {
    /// The name `pactl` gives this kind of object.
    pub open spec fn kind_text(self) -> Seq<char> {
        match self {
            Class::App => "sink-input"@,
            Class::Mic => "source"@,
            Class::Spk => "sink"@,
        }
    }

    /// The text that opens an object's block in the listing, before its id.
    pub open spec fn id_text(self) -> Seq<char> {
        match self {
            Class::App => "Sink Input #"@,
            Class::Mic => "Source #"@,
            Class::Spk => "Sink #"@,
        }
    }

    /// The text that opens the line holding an object's name.
    pub open spec fn name_text(self) -> Seq<char> {
        match self {
            Class::App => "application.name = "@,
            _ => "alsa.card_name = "@,
        }
    }

    /// What `pactl list` is told to list: the kind, plural.
    pub open spec fn list_word(self) -> Seq<char> {
        self.kind_text() + "s"@
    }

    /// The `pactl` subcommand that sets the volume of an object of this kind.
    pub open spec fn set_volume_word(self) -> Seq<char> {
        "set-"@ + self.kind_text() + "-volume"@
    }

    /// The name `pactl` gives this kind of object.
    pub fn class(&self) -> (r: &'static str)
        ensures
            r@ == self.kind_text(),
    {
        match self {
            Class::App => "sink-input",
            Class::Mic => "source",
            Class::Spk => "sink",
        }
    }

    /// The text that opens an object's block in the listing, before its id.
    pub fn id(&self) -> (r: &'static str)
        ensures
            r@ == self.id_text(),
    {
        match self {
            Class::App => "Sink Input #",
            Class::Mic => "Source #",
            Class::Spk => "Sink #",
        }
    }

    /// The text that opens the line holding an object's name.
    pub fn name(&self) -> (r: &'static str)
        ensures
            r@ == self.name_text(),
    {
        match self {
            Class::App => "application.name = ",
            _ => "alsa.card_name = ",
        }
    }

    /// The argument that names what `pactl list` lists: the kind, plural.
    pub fn list_arg(&self) -> (r: String)
        ensures
            r@ == self.list_word(),
    {
        let mut r = String::from_str(self.class());
        r.append("s");
        r
    }

    /// The `pactl` subcommand that sets the volume of an object of this kind.
    pub fn set_volume_arg(&self) -> (r: String)
        ensures
            r@ == self.set_volume_word(),
    {
        let mut r = String::from_str("set-");
        r.append(self.class());
        r.append("-volume");
        r
    }
}

/// The `pactl` arguments that list the objects of `class`.
pub open spec fn list_command(class: Class) -> Seq<Seq<char>> {
    seq!["list"@, class.list_word()]
}

/// The `pactl` arguments that set the object `id` of `class` to the volume
/// for the reading `vol`.
pub open spec fn set_volume_command(class: Class, id: Seq<char>, vol: u16) -> Seq<Seq<char>> {
    seq![class.set_volume_word(), id, decimal(pactl_volume_of(vol))]
}

/// The character of the decimal digit `d`.
pub open spec fn digit_char(d: nat) -> char {
    ('0' as u32 + d) as char
}

/// `n` written in decimal, as `to_string` writes it.
pub open spec fn decimal(n: nat) -> Seq<char>
    decreases n,
{
    if n < 10 {
        seq![digit_char(n)]
    } else {
        decimal(n / 10).push(digit_char(n % 10))
    }
}

/// The texts `pactl` uses for each kind of object, character by character.
pub proof fn law_class_texts()
    ensures
        Class::App.kind_text() == seq!['s', 'i', 'n', 'k', '-', 'i', 'n', 'p', 'u', 't'],
        Class::Mic.kind_text() == seq!['s', 'o', 'u', 'r', 'c', 'e'],
        Class::Spk.kind_text() == seq!['s', 'i', 'n', 'k'],
        Class::App.id_text() == seq!['S', 'i', 'n', 'k', ' ', 'I', 'n', 'p', 'u', 't', ' ', '#'],
        Class::Mic.id_text() == seq!['S', 'o', 'u', 'r', 'c', 'e', ' ', '#'],
        Class::Spk.id_text() == seq!['S', 'i', 'n', 'k', ' ', '#'],
        Class::App.name_text() == seq![
            'a', 'p', 'p', 'l', 'i', 'c', 'a', 't', 'i', 'o', 'n', '.', 'n', 'a', 'm', 'e', ' ', '=', ' ',
        ],
        Class::Mic.name_text() == seq![
            'a', 'l', 's', 'a', '.', 'c', 'a', 'r', 'd', '_', 'n', 'a', 'm', 'e', ' ', '=', ' ',
        ],
        Class::Spk.name_text() == Class::Mic.name_text(),
{
    reveal_strlit("sink-input");
    reveal_strlit("source");
    reveal_strlit("sink");
    reveal_strlit("Sink Input #");
    reveal_strlit("Source #");
    reveal_strlit("Sink #");
    reveal_strlit("application.name = ");
    reveal_strlit("alsa.card_name = ");
}

/// The words of the `pactl` commands, character by character: listing
/// names the kind in the plural, setting names `set-<kind>-volume`.
pub proof fn law_command_words(class: Class)
    ensures
        class.list_word() == class.kind_text() + seq!['s'],
        class.set_volume_word() == seq!['s', 'e', 't', '-'] + class.kind_text() + seq![
            '-', 'v', 'o', 'l', 'u', 'm', 'e',
        ],
        list_command(class) == seq![seq!['l', 'i', 's', 't'], class.kind_text() + seq!['s']],
{
    reveal_strlit("s");
    reveal_strlit("set-");
    reveal_strlit("-volume");
    reveal_strlit("list");
    assert("list"@ =~= seq!['l', 'i', 's', 't']);
    assert("s"@ =~= seq!['s']);
    assert(class.list_word() =~= class.kind_text() + seq!['s']);
    assert(list_command(class) =~= seq![seq!['l', 'i', 's', 't'], class.kind_text() + seq!['s']]);
}

/// Every command built for objects of `class` is three words: `set-`, the
/// kind of that very class and `-volume`; then the object's id; then the
/// volume for the reading in decimal.
pub proof fn law_set_volume_command_words(class: Class, id: Seq<char>, vol: u16)
    ensures
        set_volume_command(class, id, vol).len() == 3,
        set_volume_command(class, id, vol)[0] == seq!['s', 'e', 't', '-'] + class.kind_text()
            + seq!['-', 'v', 'o', 'l', 'u', 'm', 'e'],
        set_volume_command(class, id, vol)[1] == id,
        set_volume_command(class, id, vol)[2] == decimal(((vol + 1) * 16) as nat),
{
    reveal_strlit("set-");
    reveal_strlit("-volume");
}

/// Facts of the id and name texts that reading a listing relies on.
proof fn lemma_class_text_facts(class: Class)
    ensures
        class.id_text().len() >= 6,
        class.id_text()[0] == 'S',
        class.id_text().last() == '#',
        forall|i: int| 0 <= i < class.id_text().len() ==> class.id_text()[i] != '\n',
        class.name_text().len() >= 17,
        class.name_text()[0] == 'a',
        forall|i: int| 0 <= i < class.name_text().len() ==> class.name_text()[i] != '\n',
{
    law_class_texts();
}

/// Padding of spaces and tabs.
pub open spec fn is_padding(s: Seq<char>) -> bool {
    forall|i: int| 0 <= i < s.len() ==> s[i] == ' ' || s[i] == '\t'
}

/// The listing of one block of `class`: its opening line holds the id text
/// and then `x`, its name line the name text and then `y`; each line may be
/// padded with spaces and tabs on both sides, and ends with a line feed.
pub open spec fn one_block_listing(
    class: Class,
    w1: Seq<char>,
    x: Seq<char>,
    t1: Seq<char>,
    w2: Seq<char>,
    y: Seq<char>,
    t2: Seq<char>,
) -> Seq<char> {
    w1 + class.id_text() + x + t1 + seq!['\n'] + w2 + class.name_text() + y + t2 + seq!['\n']
}

/// Two lines, each ended by a line feed, split into those lines and the
/// empty text after the last line feed.
proof fn lemma_two_lines(l1: Seq<char>, l2: Seq<char>)
    requires
        forall|i: int| 0 <= i < l1.len() ==> l1[i] != '\n',
        forall|i: int| 0 <= i < l2.len() ==> l2[i] != '\n',
    ensures
        split_lines(l1 + seq!['\n'] + l2 + seq!['\n']) == seq![l1, l2, Seq::<char>::empty()],
{
    let l = l1 + seq!['\n'] + l2 + seq!['\n'];
    let empty = Seq::<char>::empty();
    let q1 = l1.len() as int;
    assert forall|j: int| 0 <= j < q1 implies l[j] != '\n' by {
        assert(l[j] == l1[j]);
    }
    lemma_split_lines_at(l, q1);
    assert(l.take(q1) =~= l1);
    let r = l.skip(q1 + 1);
    assert(r =~= l2 + seq!['\n']);
    let q2 = l2.len() as int;
    assert forall|j: int| 0 <= j < q2 implies r[j] != '\n' by {
        assert(r[j] == l2[j]);
    }
    lemma_split_lines_at(r, q2);
    assert(r.take(q2) =~= l2);
    assert(r.skip(q2 + 1) =~= empty);
    assert(split_lines(empty) =~= seq![empty]);
    assert(split_lines(l) =~= seq![l1, l2, empty]);
}

/// Trimming a padded text whose ends are not white space leaves the text.
proof fn lemma_trim_padded(w: Seq<char>, core: Seq<char>, t: Seq<char>)
    requires
        is_padding(w),
        is_padding(t),
        core.len() > 0,
        !is_white(core[0]),
        !is_white(core.last()),
    ensures
        trim(w + core + t) == core,
{
    let s = w + core + t;
    assert forall|j: int| 0 <= j < w.len() implies is_white(s[j]) by {
        assert(s[j] == w[j]);
    }
    assert(s[w.len() as int] == core[0]);
    lemma_trim_start_at(s, w.len() as int);
    let u = core + t;
    assert(s.skip(w.len() as int) =~= u);
    assert forall|j: int| core.len() <= j < u.len() implies is_white(u[j]) by {
        assert(u[j] == t[j - core.len()]);
    }
    assert(u[core.len() - 1] == core.last());
    lemma_trim_end_at(u, core.len() as int);
    assert(u.take(core.len() as int) =~= core);
}

/// Padding never holds a line feed.
proof fn lemma_padding_no_newline(w: Seq<char>)
    requires
        is_padding(w),
    ensures
        forall|i: int| 0 <= i < w.len() ==> w[i] != '\n',
{
}

/// The ids found in a listing of one block: the block's whole id when the
/// name line holds the name, and none when it does not.
proof fn lemma_one_block(
    class: Class,
    w1: Seq<char>,
    x: Seq<char>,
    t1: Seq<char>,
    w2: Seq<char>,
    y: Seq<char>,
    t2: Seq<char>,
    name: Seq<char>,
)
    requires
        is_padding(w1),
        is_padding(t1),
        is_padding(w2),
        is_padding(t2),
        forall|i: int| 0 <= i < x.len() ==> x[i] != '\n',
        x.len() == 0 || !is_white(x.last()),
        forall|i: int| 0 <= i < y.len() ==> y[i] != '\n',
        y.len() > 0 && !is_white(y.last()),
    ensures
        matching_ids(
            split_lines(one_block_listing(class, w1, x, t1, w2, y, t2)),
            class,
            name,
            seq![],
        ) == if contains(y, name) {
            seq![x]
        } else {
            Seq::<Seq<char>>::empty()
        },
{
    lemma_class_text_facts(class);
    let id = class.id_text();
    let nt = class.name_text();
    let c1 = id + x;
    let c2 = nt + y;
    let l1 = w1 + c1 + t1;
    let l2 = w2 + c2 + t2;
    let empty = Seq::<char>::empty();
    assert(one_block_listing(class, w1, x, t1, w2, y, t2) =~= l1 + seq!['\n'] + l2 + seq!['\n']);
    lemma_padding_no_newline(w1);
    lemma_padding_no_newline(t1);
    lemma_padding_no_newline(w2);
    lemma_padding_no_newline(t2);
    assert forall|i: int| 0 <= i < l1.len() implies l1[i] != '\n' by {
        if i < w1.len() {
            assert(l1[i] == w1[i]);
        } else if i < w1.len() + id.len() {
            assert(l1[i] == id[i - w1.len()]);
        } else if i < w1.len() + c1.len() {
            assert(l1[i] == x[i - w1.len() - id.len()]);
        } else {
            assert(l1[i] == t1[i - w1.len() - c1.len()]);
        }
    }
    assert forall|i: int| 0 <= i < l2.len() implies l2[i] != '\n' by {
        if i < w2.len() {
            assert(l2[i] == w2[i]);
        } else if i < w2.len() + nt.len() {
            assert(l2[i] == nt[i - w2.len()]);
        } else if i < w2.len() + c2.len() {
            assert(l2[i] == y[i - w2.len() - nt.len()]);
        } else {
            assert(l2[i] == t2[i - w2.len() - c2.len()]);
        }
    }
    lemma_two_lines(l1, l2);
    // the opening line
    if x.len() > 0 {
        assert(c1.last() == x.last());
    } else {
        assert(c1.last() == id.last());
    }
    assert(c1[0] == id[0]);
    lemma_trim_padded(w1, c1, t1);
    assert(c1.take(id.len() as int) =~= id);
    assert(c1.skip(id.len() as int) =~= x);
    // the name line
    assert(c2[0] == nt[0]);
    assert(c2.last() == y.last());
    lemma_trim_padded(w2, c2, t2);
    if id.len() <= c2.len() {
        assert(c2.take(id.len() as int)[0] == c2[0]);
    }
    assert(!starts_with(c2, id));
    assert(c2.take(nt.len() as int) =~= nt);
    assert(c2.skip(nt.len() as int) =~= y);
    let lines = seq![l1, l2, empty];
    let rest1 = seq![l2, empty];
    assert(lines.drop_first() =~= rest1);
    assert(rest1.drop_first() =~= seq![empty]);
    lemma_empty_line_adds_nothing(class, name, x);
    if contains(y, name) {
        assert(matching_ids(rest1, class, name, x) =~= seq![x]);
    } else {
        assert(matching_ids(rest1, class, name, x) =~= Seq::<Seq<char>>::empty());
    }
}

/// The id of a block is the whole rest of its opening line after the id
/// text, whatever its length, without the padding around the line: a
/// listing of one block whose name line holds the name at index `k` yields
/// exactly that id.
pub proof fn law_block_id_is_rest_of_line(
    class: Class,
    w1: Seq<char>,
    x: Seq<char>,
    t1: Seq<char>,
    w2: Seq<char>,
    y: Seq<char>,
    t2: Seq<char>,
    name: Seq<char>,
    k: int,
)
    requires
        is_padding(w1),
        is_padding(t1),
        is_padding(w2),
        is_padding(t2),
        forall|i: int| 0 <= i < x.len() ==> x[i] != '\n',
        x.len() == 0 || !is_white(x.last()),
        forall|i: int| 0 <= i < y.len() ==> y[i] != '\n',
        y.len() > 0 && !is_white(y.last()),
        0 <= k <= y.len() - name.len(),
        y.subrange(k, k + name.len()) == name,
    ensures
        matching_ids(
            split_lines(one_block_listing(class, w1, x, t1, w2, y, t2)),
            class,
            name,
            seq![],
        ) == seq![x],
{
    assert(contains(y, name));
    lemma_one_block(class, w1, x, t1, w2, y, t2, name);
}

/// A block whose name line does not hold the name anywhere yields no id.
pub proof fn law_block_without_name_is_skipped(
    class: Class,
    w1: Seq<char>,
    x: Seq<char>,
    t1: Seq<char>,
    w2: Seq<char>,
    y: Seq<char>,
    t2: Seq<char>,
    name: Seq<char>,
)
    requires
        is_padding(w1),
        is_padding(t1),
        is_padding(w2),
        is_padding(t2),
        forall|i: int| 0 <= i < x.len() ==> x[i] != '\n',
        x.len() == 0 || !is_white(x.last()),
        forall|i: int| 0 <= i < y.len() ==> y[i] != '\n',
        y.len() > 0 && !is_white(y.last()),
        forall|k: int|
            0 <= k <= y.len() - name.len() ==> #[trigger] y.subrange(k, k + name.len()) != name,
    ensures
        matching_ids(
            split_lines(one_block_listing(class, w1, x, t1, w2, y, t2)),
            class,
            name,
            seq![],
        ) == Seq::<Seq<char>>::empty(),
{
    lemma_one_block(class, w1, x, t1, w2, y, t2, name);
}

/// A line that opens a block: once trimmed, it starts with the id text.
pub open spec fn opens_block(class: Class, line: Seq<char>) -> bool {
    starts_with(trim(line), class.id_text())
}

/// Reading `lines` yields the same ids whatever the id it starts with, when
/// its first line opens a block.
proof fn lemma_opening_line_sets_id(
    lines: Seq<Seq<char>>,
    class: Class,
    name: Seq<char>,
    id1: Seq<char>,
    id2: Seq<char>,
)
    requires
        lines.len() > 0,
        opens_block(class, lines[0]),
    ensures
        matching_ids(lines, class, name, id1) == matching_ids(lines, class, name, id2),
{
}

/// The ids found before a block opens do not depend on what follows, and
/// the ids found from a block on do not depend on what came before: the
/// listing's ids are those of the part before the block followed by those
/// of the part from the block on.
pub proof fn law_blocks_are_independent(
    before: Seq<Seq<char>>,
    after: Seq<Seq<char>>,
    class: Class,
    name: Seq<char>,
    id: Seq<char>,
)
    requires
        after.len() > 0,
        opens_block(class, after[0]),
    ensures
        matching_ids(before + after, class, name, id) == matching_ids(before, class, name, id)
            + matching_ids(after, class, name, seq![]),
    decreases before.len(),
{
    if before.len() == 0 {
        assert(before + after =~= after);
        lemma_opening_line_sets_id(after, class, name, id, seq![]);
        assert(matching_ids(before, class, name, id) == Seq::<Seq<char>>::empty());
        assert(Seq::<Seq<char>>::empty() + matching_ids(after, class, name, seq![]) =~= matching_ids(
            after,
            class,
            name,
            seq![],
        ));
    } else {
        let all = before + after;
        assert(all[0] == before[0]);
        assert(all.drop_first() =~= before.drop_first() + after);
        let line = trim(before[0]);
        let rest = before.drop_first();
        let tail = matching_ids(after, class, name, seq![]);
        if starts_with(line, class.id_text()) {
            let nid = line.skip(class.id_text().len() as int);
            law_blocks_are_independent(rest, after, class, name, nid);
        } else if starts_with(line, class.name_text()) && contains(
            line.skip(class.name_text().len() as int),
            name,
        ) {
            law_blocks_are_independent(rest, after, class, name, id);
            assert(seq![id] + (matching_ids(rest, class, name, id) + tail) =~= (seq![id]
                + matching_ids(rest, class, name, id)) + tail);
        } else {
            law_blocks_are_independent(rest, after, class, name, id);
        }
    }
}

/// The empty text after the last line feed adds no id.
proof fn lemma_empty_line_adds_nothing(class: Class, name: Seq<char>, id: Seq<char>)
    ensures
        matching_ids(seq![Seq::<char>::empty()], class, name, id) == Seq::<Seq<char>>::empty(),
{
    lemma_class_text_facts(class);
    let empty = Seq::<char>::empty();
    assert(trim_start(empty) == empty);
    assert(trim_end(empty) == empty);
    assert(trim(empty) =~= empty);
    assert(seq![empty][0] == empty);
    assert(seq![empty].drop_first() =~= Seq::<Seq<char>>::empty());
    assert(!starts_with(empty, class.id_text()));
    assert(!starts_with(empty, class.name_text()));
    assert(matching_ids(Seq::<Seq<char>>::empty(), class, name, id) == Seq::<Seq<char>>::empty());
}

/// The number a text of decimal digits stands for.
pub open spec fn decimal_value(s: Seq<char>) -> int
    decreases s.len(),
{
    if s.len() == 0 {
        0
    } else {
        10 * decimal_value(s.drop_last()) + (s.last() as u32 - '0' as u32)
    }
}

/// Each digit character is the character `'0'` plus the digit's value, and
/// so lies between `'0'` and `'9'`.
pub proof fn law_digit_char_value(d: nat)
    requires
        d < 10,
    ensures
        digit_char(d) as u32 == '0' as u32 + d,
        '0' <= digit_char(d) <= '9',
{
}

/// The decimal text of `n` is made of digits only, has no leading zero
/// (unless it is `"0"`), and reads back as `n`.
pub proof fn law_decimal_reads_back(n: nat)
    ensures
        decimal_value(decimal(n)) == n,
        decimal(n).len() >= 1,
        forall|i: int| 0 <= i < decimal(n).len() ==> '0' <= #[trigger] decimal(n)[i] <= '9',
        decimal(n).len() > 1 ==> decimal(n)[0] != '0',
    decreases n,
{
    if n >= 10 {
        law_decimal_reads_back(n / 10);
        let s = decimal(n);
        assert(s.drop_last() =~= decimal(n / 10));
        assert(s.last() == digit_char(n % 10));
        law_digit_char_value(n % 10);
        assert forall|i: int| 0 <= i < s.len() implies '0' <= #[trigger] s[i] <= '9' by {
            if i < s.len() - 1 {
                assert(s[i] == decimal(n / 10)[i]);
            }
        }
        assert(decimal_value(s) == 10 * decimal_value(s.drop_last()) + (s.last() as u32
            - '0' as u32));
        assert(decimal_value(s) == 10 * (n / 10) + n % 10);
        if n / 10 < 10 {
            law_digit_char_value(n / 10);
            assert(decimal(n / 10)[0] == digit_char(n / 10));
        } else {
            assert(decimal(n / 10) == decimal(n / 100).push(digit_char((n / 10) % 10)));
            law_decimal_reads_back(n / 100);
        }
        assert(s[0] == decimal(n / 10)[0]);
    } else {
        law_digit_char_value(n);
        let s = decimal(n);
        assert(s.drop_last() =~= Seq::<char>::empty());
        assert(decimal_value(s) == 10 * decimal_value(s.drop_last()) + (s.last() as u32
            - '0' as u32));
    }
}

/// The volume `pactl` is given for a reading: readings run from 0 to 4095
/// and `pactl` volumes up to 65536, so the reading plus one, times 16.
pub open spec fn pactl_volume_of(vol: u16) -> nat {
    ((vol + 1) * 16) as nat
}

/// The text of the decimal digit `d`.
fn digit_str(d: u32) -> (r: &'static str)
    requires
        d < 10,
    ensures
        r@ == seq![digit_char(d as nat)],
{
    match d {
        0 => {
            proof {
                reveal_strlit("0");
            }
            "0"
        },
        1 => {
            proof {
                reveal_strlit("1");
            }
            "1"
        },
        2 => {
            proof {
                reveal_strlit("2");
            }
            "2"
        },
        3 => {
            proof {
                reveal_strlit("3");
            }
            "3"
        },
        4 => {
            proof {
                reveal_strlit("4");
            }
            "4"
        },
        5 => {
            proof {
                reveal_strlit("5");
            }
            "5"
        },
        6 => {
            proof {
                reveal_strlit("6");
            }
            "6"
        },
        7 => {
            proof {
                reveal_strlit("7");
            }
            "7"
        },
        8 => {
            proof {
                reveal_strlit("8");
            }
            "8"
        },
        _ => {
            proof {
                reveal_strlit("9");
            }
            "9"
        },
    }
}

/// Appends `n` in decimal to `out`.
fn push_decimal(out: &mut String, n: u32)
    ensures
        final(out)@ == old(out)@ + decimal(n as nat),
    decreases n,
{
    if n >= 10 {
        push_decimal(out, n / 10);
    }
    out.append(digit_str(n % 10));
    proof {
        if n >= 10 {
            assert(old(out)@ + decimal((n / 10) as nat) + seq![digit_char((n % 10) as nat)]
                =~= old(out)@ + decimal(n as nat));
        } else {
            assert(old(out)@ + seq![digit_char((n % 10) as nat)] =~= old(out)@ + decimal(n as nat));
        }
    }
}

/// The volume text for a reading reads back as the reading plus one, times
/// 16: readings 0 to 4095 give 16 to 65536.
pub proof fn law_volume_text_value(vol: u16)
    ensures
        decimal_value(decimal(pactl_volume_of(vol))) == (vol + 1) * 16,
        vol <= 4095 ==> 16 <= decimal_value(decimal(pactl_volume_of(vol))) <= 65536,
{
    law_decimal_reads_back(pactl_volume_of(vol));
}

/// The volume argument `pactl` is given for the reading `vol`, in decimal.
pub fn pactl_volume(vol: u16) -> (r: String)
    ensures
        r@ == decimal(pactl_volume_of(vol)),
{
    let n: u32 = (vol as u32 + 1) * 16;
    let mut r = String::new();
    push_decimal(&mut r, n);
    assert(r@ =~= decimal(n as nat));
    r
}

/// One controlled endpoint: every object of `class` whose name contains
/// `name`.
pub struct Channel<'a> {
    class: Class,
    name: &'a str,
}

/// The ids of the blocks of `lines` whose name line contains `name`, in
/// order. `id` is the id of the block the lines start in; before the first
/// block it is empty. Lines are trimmed of white space first.
pub open spec fn matching_ids(
    lines: Seq<Seq<char>>,
    class: Class,
    name: Seq<char>,
    id: Seq<char>,
) -> Seq<Seq<char>>
    decreases lines.len(),
{
    if lines.len() == 0 {
        seq![]
    } else {
        let line = trim(lines[0]);
        let rest = lines.drop_first();
        if starts_with(line, class.id_text()) {
            matching_ids(rest, class, name, line.skip(class.id_text().len() as int))
        } else if starts_with(line, class.name_text()) && contains(
            line.skip(class.name_text().len() as int),
            name,
        ) {
            seq![id] + matching_ids(rest, class, name, id)
        } else {
            matching_ids(rest, class, name, id)
        }
    }
}

impl<'a> Channel<'a> {
    /// The kind of objects this channel controls.
    pub closed spec fn class_of(&self) -> Class {
        self.class
    }

    /// The text an object's name must contain to be controlled.
    pub closed spec fn name_of(&self) -> Seq<char> {
        self.name@
    }

    /// A channel for the objects of `class` whose name contains `name`.
    pub fn new(class: Class, name: &'a str) -> (c: Self)
        ensures
            c.class_of() == class,
            c.name_of() == name@,
    {
        Self { class, name }
    }

    /// The ids of the objects of this channel in `listing`, the text that
    /// `pactl list <kind>s` printed, in the order they appear.
    pub fn targets(&self, listing: &str) -> (r: Vec<String>)
        ensures
            r.deep_view() == matching_ids(
                split_lines(listing@),
                self.class_of(),
                self.name_of(),
                seq![],
            ),
    {
        let v = chars_of(listing);
        let idm = chars_of(self.class.id());
        let nm = chars_of(self.class.name());
        let name = chars_of(self.name);
        let ghost cls = self.class;
        let ghost full = matching_ids(split_lines(v@), cls, name@, seq![]);
        let mut out: Vec<String> = Vec::new();
        let mut id = String::new();
        let mut p: usize = 0;
        let mut done = false;
        assert(out.deep_view() =~= Seq::<Seq<char>>::empty());
        assert(v@.skip(0) =~= v@);
        assert(Seq::<Seq<char>>::empty() + full =~= full);
        while !done
            invariant
                v@ == listing@,
                idm@ == cls.id_text(),
                nm@ == cls.name_text(),
                cls == self.class,
                p <= v.len(),
                !done ==> out.deep_view() + matching_ids(split_lines(v@.skip(p as int)), cls, name@, id@)
                    == full,
                done ==> out.deep_view() == full,
            decreases 2 * (v.len() - p) + (if done { 0int } else { 1int }),
        {
            let q = find_newline(&v, p);
            let ghost s = v@.skip(p as int);
            let ghost rest_lines: Seq<Seq<char>> = if q == v.len() {
                seq![]
            } else {
                split_lines(v@.skip(q + 1))
            };
            let ghost line = v@.subrange(p as int, q as int);
            proof {
                assert forall|j: int| 0 <= j < q - p implies s[j] != '\n' by {
                    assert(s[j] == v@[p + j]);
                }
                if q < v.len() {
                    assert(s[q - p] == v@[q as int]);
                }
                lemma_split_lines_at(s, q - p);
                assert(s.take(q - p) =~= line);
                if q < v.len() {
                    assert(s.skip(q - p + 1) =~= v@.skip(q + 1));
                    assert(split_lines(s) == seq![line] + rest_lines);
                } else {
                    assert(s =~= line);
                    assert(split_lines(s) =~= seq![line] + rest_lines);
                }
                assert((seq![line] + rest_lines)[0] == line);
                assert((seq![line] + rest_lines).drop_first() =~= rest_lines);
            }
            let ghost old_out = out.deep_view();
            let ghost old_id = id@;
            let (a, b) = trim_range(&v, p, q);
            let ghost t = trim(line);
            if starts_with_at(&v, a, b, &idm) {
                let piece = listing.substring_char(a + idm.len(), b);
                id = String::from_str(piece);
                proof {
                    assert(t.skip(idm.len() as int) =~= v@.subrange(a + idm.len(), b as int));
                }
            } else if starts_with_at(&v, a, b, &nm) && contains_at(&v, a + nm.len(), b, &name) {
                proof {
                    assert(t.skip(nm.len() as int) =~= v@.subrange(a + nm.len(), b as int));
                }
                out.push(id.clone());
                proof {
                    assert(out.deep_view() =~= old_out + seq![old_id]);
                }
            } else {
                proof {
                    if starts_with(t, nm@) {
                        assert(t.skip(nm.len() as int) =~= v@.subrange(a + nm.len(), b as int));
                    }
                }
            }
            if q == v.len() {
                proof {
                    assert(matching_ids(rest_lines, cls, name@, id@) == Seq::<Seq<char>>::empty());
                    assert(out.deep_view() + Seq::<Seq<char>>::empty() =~= out.deep_view());
                }
                done = true;
            } else {
                p = q + 1;
            }
        }
        assert(v@.skip(0) =~= v@);
        out
    }

    /// The `pactl` arguments that list the objects of this channel's kind.
    pub fn list_args(&self) -> (r: Vec<String>)
        ensures
            r.deep_view() == list_command(self.class_of()),
    {
        let mut r: Vec<String> = Vec::new();
        r.push(String::from_str("list"));
        r.push(self.class.list_arg());
        assert(r.deep_view() =~= list_command(self.class_of()));
        r
    }

    /// The `pactl` argument lists that set every object of this channel in
    /// `listing` (what `pactl list <kind>s` printed) to the volume for the
    /// reading `vol`, one per object, in the order of the listing.
    pub fn set_volume_args(&self, vol: u16, listing: &str) -> (r: Vec<Vec<String>>)
        ensures
            r.deep_view() == matching_ids(
                split_lines(listing@),
                self.class_of(),
                self.name_of(),
                seq![],
            ).map_values(|id: Seq<char>| set_volume_command(self.class_of(), id, vol)),
    {
        let ids = self.targets(listing);
        let subcommand = self.class.set_volume_arg();
        let volume = pactl_volume(vol);
        let ghost want = ids.deep_view().map_values(
            |id: Seq<char>| set_volume_command(self.class_of(), id, vol),
        );
        let mut r: Vec<Vec<String>> = Vec::new();
        let mut k: usize = 0;
        while k < ids.len()
            invariant
                k <= ids.len(),
                subcommand@ == self.class_of().set_volume_word(),
                volume@ == decimal(pactl_volume_of(vol)),
                want == ids.deep_view().map_values(
                    |id: Seq<char>| set_volume_command(self.class_of(), id, vol),
                ),
                r.deep_view() == want.take(k as int),
            decreases ids.len() - k,
        {
            let mut cmd: Vec<String> = Vec::new();
            cmd.push(subcommand.clone());
            cmd.push(ids[k].clone());
            cmd.push(volume.clone());
            proof {
                assert(cmd.deep_view() =~= want[k as int]);
            }
            let ghost before = r.deep_view();
            let ghost added = cmd.deep_view();
            r.push(cmd);
            k = k + 1;
            proof {
                assert(before.len() == k - 1);
                assert(r.deep_view() =~= before.push(added));
                assert(want.take(k as int) =~= want.take(k - 1).push(want[k - 1]));
            }
        }
        assert(want.take(k as int) =~= want);
        r
    }
}

} // verus!
