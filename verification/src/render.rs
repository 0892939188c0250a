//! Indexes as text.

use crate::hashing::{map_get, map_keys};
use crate::index::{row_views, Index};
use crate::primitives::{StateId, TokenId};
use rustc_hash::FxHashMap;
use vstd::prelude::*;

verus! {

/// The decimal digit for a number below ten.
pub open spec fn digit_char(digit: nat) -> char {
    (48 + digit) as char
}

/// A number in decimal notation.
pub open spec fn decimal(n: nat) -> Seq<char>
    decreases n,
{
    if n < 10 {
        seq![digit_char(n)]
    } else {
        decimal(n / 10).push(digit_char(n % 10))
    }
}

/// Whether `entries` lists each entry of `row` once.
pub open spec fn lists_row(
    entries: Seq<(TokenId, StateId)>,
    row: Map<TokenId, StateId>,
) -> bool {
    &&& forall|i: int|
        0 <= i < entries.len() ==> {
            &&& row.contains_key((#[trigger] entries[i]).0)
            &&& row[entries[i].0] == entries[i].1
        }
    &&& forall|i: int, j: int|
        0 <= i < j < entries.len() ==> (#[trigger] entries[i]).0 != (#[trigger] entries[j]).0
    &&& forall|id: TokenId| #[trigger]
        row.contains_key(id) ==> exists|i: int|
            0 <= i < entries.len() && (#[trigger] entries[i]).0 == id
}

/// Whether `rows` lists the transitions of each state once.
pub open spec fn lists_transitions(
    rows: Seq<(StateId, Seq<(TokenId, StateId)>)>,
    transitions: Map<StateId, Map<TokenId, StateId>>,
) -> bool {
    &&& forall|i: int|
        0 <= i < rows.len() ==> {
            &&& transitions.contains_key((#[trigger] rows[i]).0)
            &&& lists_row(rows[i].1, transitions[rows[i].0])
        }
    &&& forall|i: int, j: int|
        0 <= i < j < rows.len() ==> (#[trigger] rows[i]).0 != (#[trigger] rows[j]).0
    &&& forall|state: StateId| #[trigger]
        transitions.contains_key(state) ==> exists|i: int|
            0 <= i < rows.len() && (#[trigger] rows[i]).0 == state
}

/// The lines for the entries of a row, one for each.
pub open spec fn entry_lines(entries: Seq<(TokenId, StateId)>) -> Seq<char>
    decreases entries.len(),
{
    if entries.len() == 0 {
        Seq::empty()
    } else {
        entry_lines(entries.drop_last()) + "    "@ + decimal(entries.last().0 as nat) + ": "@
            + decimal(entries.last().1 as nat) + ",\n"@
    }
}

/// A row in braces, with one line for each entry.
pub open spec fn row_text(entries: Seq<(TokenId, StateId)>) -> Seq<char> {
    if entries.len() == 0 {
        "{}"@
    } else {
        "{\n"@ + entry_lines(entries) + "}"@
    }
}

/// The states with their rows.
pub open spec fn rows_text(rows: Seq<(StateId, Seq<(TokenId, StateId)>)>) -> Seq<char>
    decreases rows.len(),
{
    if rows.len() == 0 {
        Seq::empty()
    } else {
        rows_text(rows.drop_last()) + decimal(rows.last().0 as nat) + " -> "@ + row_text(
            rows.last().1,
        ) + "\n"@
    }
}

/// Whether `text` shows `transitions`, in some order.
pub open spec fn shows(
    text: Seq<char>,
    transitions: Map<StateId, Map<TokenId, StateId>>,
) -> bool {
    exists|rows: Seq<(StateId, Seq<(TokenId, StateId)>)>| #[trigger]
        lists_transitions(rows, transitions) && text == "Index object with transitions:\n"@
            + rows_text(rows)
}

/// Returns the decimal digit for a number below ten.
fn digit(n: u32) -> (text: &'static str)
    requires
        n < 10,
    ensures
        text@ == seq![digit_char(n as nat)],
{
    proof {
        reveal_strlit("0");
        reveal_strlit("1");
        reveal_strlit("2");
        reveal_strlit("3");
        reveal_strlit("4");
        reveal_strlit("5");
        reveal_strlit("6");
        reveal_strlit("7");
        reveal_strlit("8");
        reveal_strlit("9");
    }
    let text = match n {
        0 => "0",
        1 => "1",
        2 => "2",
        3 => "3",
        4 => "4",
        5 => "5",
        6 => "6",
        7 => "7",
        8 => "8",
        _ => "9",
    };
    assert(text@ =~= seq![digit_char(n as nat)]);
    text
}

/// Adds a number in decimal notation to `text`.
fn append_decimal(text: &mut String, n: u32)
    ensures
        final(text)@ == old(text)@ + decimal(n as nat),
    decreases n,
{
    if n >= 10 {
        append_decimal(text, n / 10);
    }
    text.append(digit(n % 10));
    assert(text@ =~= old(text)@ + decimal(n as nat));
}

/// Adds a row in braces to `text` and returns the order in which its entries are shown.
fn append_row(text: &mut String, row: &FxHashMap<TokenId, StateId>) -> (shown: Ghost<
    Seq<(TokenId, StateId)>,
>)
    ensures
        lists_row(shown@, row@),
        final(text)@ == old(text)@ + row_text(shown@),
{
    let keys = map_keys(row);
    let ghost mut shown: Seq<(TokenId, StateId)> = Seq::empty();
    proof {
        assert forall|j: int| 0 <= j < keys@.len() implies row@.contains_key(#[trigger] keys@[j]) by {
            assert(keys@.to_set().contains(keys@[j]));
        }
        assert forall|id: TokenId| #[trigger] row@.contains_key(id) implies keys@.contains(id) by {
            assert(keys@.to_set().contains(id));
        }
    }
    if keys.len() == 0 {
        text.append("{}");
        return Ghost(shown);
    }
    text.append("{\n");
    let mut i: usize = 0;
    while i < keys.len()
        invariant
            i <= keys@.len(),
            i == shown.len(),
            forall|j: int| 0 <= j < keys@.len() ==> row@.contains_key(#[trigger] keys@[j]),
            forall|j: int|
                0 <= j < i ==> (#[trigger] shown[j]).0 == keys@[j] && shown[j].1 == row@[keys@[j]],
            text@ == old(text)@ + "{\n"@ + entry_lines(shown),
        decreases keys@.len() - i,
    {
        let id: TokenId = keys[i];
        assert(row@.contains_key(keys@[i as int]));
        if let Some(to) = map_get(row, &id) {
            let ghost before = shown;
            proof {
                shown = shown.push((id, *to));
                assert(shown.drop_last() =~= before);
            }
            text.append("    ");
            append_decimal(text, id);
            text.append(": ");
            append_decimal(text, *to);
            text.append(",\n");
            assert(text@ =~= old(text)@ + "{\n"@ + entry_lines(shown));
        }
        i = i + 1;
    }
    text.append("}");
    proof {
        assert(text@ =~= old(text)@ + row_text(shown));
        assert forall|id: TokenId| #[trigger] row@.contains_key(id) implies exists|j: int|
            0 <= j < shown.len() && (#[trigger] shown[j]).0 == id by {
            assert(keys@.contains(id));
            let j = choose|j: int| 0 <= j < keys@.len() && keys@[j] == id;
            assert(shown[j].0 == id);
        }
    }
    Ghost(shown)
}

impl Index {
    /// Returns the index as text: a heading, and a block for each state that has transitions.
    pub fn to_text(&self) -> (text: String)
        ensures
            shows(text@, self@.transitions),
    {
        let transitions = self.transitions();
        let keys = map_keys(transitions);
        let ghost all = self@.transitions;
        let ghost mut rows: Seq<(StateId, Seq<(TokenId, StateId)>)> = Seq::empty();
        proof {
            assert forall|j: int| 0 <= j < keys@.len() implies transitions@.contains_key(
                #[trigger] keys@[j],
            ) by {
                assert(keys@.to_set().contains(keys@[j]));
            }
        }
        let mut text = String::new();
        text.append("Index object with transitions:\n");
        assert(text@ =~= "Index object with transitions:\n"@ + rows_text(rows));
        let mut i: usize = 0;
        while i < keys.len()
            invariant
                i <= keys@.len(),
                i == rows.len(),
                all == row_views(transitions@),
                forall|j: int|
                    0 <= j < keys@.len() ==> transitions@.contains_key(#[trigger] keys@[j]),
                forall|j: int|
                    0 <= j < i ==> (#[trigger] rows[j]).0 == keys@[j] && lists_row(
                        rows[j].1,
                        all[keys@[j]],
                    ),
                text@ == "Index object with transitions:\n"@ + rows_text(rows),
            decreases keys@.len() - i,
        {
            let state: StateId = keys[i];
            assert(transitions@.contains_key(keys@[i as int]));
            if let Some(row) = map_get(transitions, &state) {
                let ghost before = text@;
                let ghost rows_before = rows;
                append_decimal(&mut text, state);
                text.append(" -> ");
                let shown = append_row(&mut text, row);
                text.append("\n");
                proof {
                    rows = rows.push((state, shown@));
                    assert(rows.drop_last() =~= rows_before);
                    assert(text@ =~= "Index object with transitions:\n"@ + rows_text(rows));
                }
            }
            i = i + 1;
        }
        proof {
            assert forall|state: StateId| #[trigger] all.contains_key(state) implies exists|j: int|
                0 <= j < rows.len() && (#[trigger] rows[j]).0 == state by {
                assert(keys@.to_set().contains(state));
                let j = choose|j: int| 0 <= j < keys@.len() && keys@[j] == state;
                assert(rows[j].0 == state);
            }
            assert(lists_transitions(rows, all));
        }
        text
    }
}

/// Decimal notation: digits only, the last of which is the remainder by ten and the others of which
/// are what is left, and none in front that is zero.
pub proof fn law_decimal(n: nat)
    ensures
        decimal(n).len() > 0,
        forall|i: int|
            0 <= i < decimal(n).len() ==> 48 <= (#[trigger] decimal(n)[i]) as u32 && decimal(n)[i] as u32
                <= 57,
        decimal(n).last() as u32 == 48 + n % 10,
        n < 10 ==> decimal(n).len() == 1,
        n >= 10 ==> decimal(n).drop_last() == decimal(n / 10) && decimal(n)[0] as u32 != 48,
    decreases n,
{
    if n >= 10 {
        law_decimal(n / 10);
        assert(decimal(n).drop_last() =~= decimal(n / 10));
        assert forall|i: int| 0 <= i < decimal(n).len() implies 48 <= (#[trigger] decimal(
            n,
        )[i]) as u32 && decimal(n)[i] as u32 <= 57 by {
            if i < decimal(n).len() - 1 {
                assert(decimal(n)[i] == decimal(n / 10)[i]);
            }
        }
        assert(decimal(n)[0] == decimal(n / 10)[0]);
        if n / 10 < 10 {
            assert(decimal(n / 10)[0] == decimal(n / 10).last());
        }
    }
}

/// Different numbers look different.
proof fn lemma_decimal_injective(n: nat, m: nat)
    requires
        decimal(n) == decimal(m),
    ensures
        n == m,
    decreases n,
{
    law_decimal(n);
    law_decimal(m);
    if n >= 10 {
        law_decimal(n / 10);
    }
    if m >= 10 {
        law_decimal(m / 10);
    }
    if n >= 10 && m >= 10 {
        lemma_decimal_injective(n / 10, m / 10);
    }
}

/// Where two texts are equal and their beginnings are of the same length, these are equal too, and
/// so is what follows.
proof fn lemma_cancel(a: Seq<char>, x: Seq<char>, b: Seq<char>, y: Seq<char>)
    requires
        a + x == b + y,
        a.len() == b.len(),
    ensures
        a == b,
        x == y,
{
    assert((a + x).take(a.len() as int) =~= a);
    assert((b + y).take(b.len() as int) =~= b);
    assert((a + x).skip(a.len() as int) =~= x);
    assert((b + y).skip(b.len() as int) =~= y);
}

spec fn is_digit(c: char) -> bool {
    48 <= c as u32 <= 57
}

/// A number ends where the digits end.
proof fn lemma_number_decodes(n: nat, x: Seq<char>, m: nat, y: Seq<char>)
    requires
        decimal(n) + x == decimal(m) + y,
        x.len() > 0 && !is_digit(x[0]),
        y.len() > 0 && !is_digit(y[0]),
    ensures
        n == m,
        x == y,
{
    let a = decimal(n);
    let b = decimal(m);
    law_decimal(n);
    law_decimal(m);
    if a.len() < b.len() {
        assert((a + x)[a.len() as int] == x[0]);
        assert((b + y)[a.len() as int] == b[a.len() as int]);
    } else if b.len() < a.len() {
        assert((b + y)[b.len() as int] == y[0]);
        assert((a + x)[b.len() as int] == a[b.len() as int]);
    }
    lemma_cancel(a, x, b, y);
    lemma_decimal_injective(n, m);
}

spec fn entry_line(entry: (TokenId, StateId)) -> Seq<char> {
    "    "@ + decimal(entry.0 as nat) + ": "@ + decimal(entry.1 as nat) + ",\n"@
}

spec fn block(row: (StateId, Seq<(TokenId, StateId)>)) -> Seq<char> {
    decimal(row.0 as nat) + " -> "@ + row_text(row.1) + "\n"@
}

proof fn lemma_entries_front(entries: Seq<(TokenId, StateId)>)
    requires
        entries.len() > 0,
    ensures
        entry_lines(entries) == entry_line(entries[0]) + entry_lines(entries.drop_first()),
    decreases entries.len(),
{
    let rest = entries.drop_first();
    let before = entries.drop_last();
    assert(entry_lines(entries) =~= entry_lines(before) + entry_line(entries.last()));
    if entries.len() == 1 {
        assert(entry_lines(before) =~= Seq::empty());
        assert(entry_lines(rest) =~= Seq::empty());
    } else {
        lemma_entries_front(before);
        assert(before.drop_first() =~= rest.drop_last());
        assert(entry_lines(rest) =~= entry_lines(rest.drop_last()) + entry_line(rest.last()));
        assert(entry_lines(entries) =~= entry_line(entries[0]) + entry_lines(rest));
    }
}

proof fn lemma_rows_front(rows: Seq<(StateId, Seq<(TokenId, StateId)>)>)
    requires
        rows.len() > 0,
    ensures
        rows_text(rows) == block(rows[0]) + rows_text(rows.drop_first()),
    decreases rows.len(),
{
    let rest = rows.drop_first();
    let before = rows.drop_last();
    assert(rows_text(rows) =~= rows_text(before) + block(rows.last()));
    if rows.len() == 1 {
        assert(rows_text(before) =~= Seq::empty());
        assert(rows_text(rest) =~= Seq::empty());
    } else {
        lemma_rows_front(before);
        assert(before.drop_first() =~= rest.drop_last());
        assert(rows_text(rest) =~= rows_text(rest.drop_last()) + block(rest.last()));
        assert(rows_text(rows) =~= block(rows[0]) + rows_text(rest));
    }
}

/// Five pieces and what follows, taken one by one.
proof fn lemma_pieces(
    a: Seq<char>,
    b: Seq<char>,
    c: Seq<char>,
    d: Seq<char>,
    e: Seq<char>,
    rest: Seq<char>,
)
    ensures
        a + b + c + d + e + rest == a + (b + (c + (d + (e + rest)))),
        a + b + c + d + rest == a + (b + (c + (d + rest))),
{
    assert(a + b + c + d + e + rest =~= a + (b + (c + (d + (e + rest)))));
    assert(a + b + c + d + rest =~= a + (b + (c + (d + rest))));
}

/// A line can be told from what follows.
proof fn lemma_line_decodes(
    a: (TokenId, StateId),
    x: Seq<char>,
    b: (TokenId, StateId),
    y: Seq<char>,
)
    requires
        entry_line(a) + x == entry_line(b) + y,
    ensures
        a == b,
        x == y,
{
    reveal_strlit(": ");
    reveal_strlit(",\n");
    let (a0, a1) = (decimal(a.0 as nat), decimal(a.1 as nat));
    let (b0, b1) = (decimal(b.0 as nat), decimal(b.1 as nat));
    lemma_pieces("    "@, a0, ": "@, a1, ",\n"@, x);
    lemma_pieces("    "@, b0, ": "@, b1, ",\n"@, y);
    lemma_cancel(
        "    "@,
        a0 + (": "@ + (a1 + (",\n"@ + x))),
        "    "@,
        b0 + (": "@ + (b1 + (",\n"@ + y))),
    );
    assert((": "@ + (a1 + (",\n"@ + x)))[0] == ':');
    assert((": "@ + (b1 + (",\n"@ + y)))[0] == ':');
    lemma_number_decodes(
        a.0 as nat,
        ": "@ + (a1 + (",\n"@ + x)),
        b.0 as nat,
        ": "@ + (b1 + (",\n"@ + y)),
    );
    lemma_cancel(": "@, a1 + (",\n"@ + x), ": "@, b1 + (",\n"@ + y));
    assert((",\n"@ + x)[0] == ',');
    assert((",\n"@ + y)[0] == ',');
    lemma_number_decodes(a.1 as nat, ",\n"@ + x, b.1 as nat, ",\n"@ + y);
    lemma_cancel(",\n"@, x, ",\n"@, y);
}

/// What the lines of a row begin with.
proof fn lemma_first_char(entries: Seq<(TokenId, StateId)>, x: Seq<char>)
    ensures
        (entry_lines(entries) + ("}"@ + x))[0] == if entries.len() == 0 {
            '}'
        } else {
            ' '
        },
        entries.len() == 0 ==> entry_lines(entries) + ("}"@ + x) == "}"@ + x,
        entries.len() > 0 ==> entry_lines(entries) + ("}"@ + x) == entry_line(entries[0]) + (
        entry_lines(entries.drop_first()) + ("}"@ + x)),
{
    reveal_strlit("    ");
    reveal_strlit("}");
    if entries.len() == 0 {
        assert(entry_lines(entries) + ("}"@ + x) =~= "}"@ + x);
        assert(("}"@ + x)[0] == '}');
    } else {
        let entry = entries[0];
        let rest = entry_lines(entries.drop_first()) + ("}"@ + x);
        lemma_entries_front(entries);
        assert(entry_lines(entries) + ("}"@ + x) =~= entry_line(entry) + rest);
        lemma_pieces(
            "    "@,
            decimal(entry.0 as nat),
            ": "@,
            decimal(entry.1 as nat),
            ",\n"@,
            rest,
        );
        assert((entry_line(entry) + rest)[0] == "    "@[0]);
    }
}

/// The lines of a row can be told apart, and from what follows.
proof fn lemma_entries_decode(
    one: Seq<(TokenId, StateId)>,
    x: Seq<char>,
    other: Seq<(TokenId, StateId)>,
    y: Seq<char>,
)
    requires
        entry_lines(one) + ("}"@ + x) == entry_lines(other) + ("}"@ + y),
    ensures
        one == other,
        x == y,
    decreases one.len(),
{
    lemma_first_char(one, x);
    lemma_first_char(other, y);
    if one.len() == 0 {
        lemma_cancel("}"@, x, "}"@, y);
        assert(one =~= other);
    } else {
        let r = entry_lines(one.drop_first()) + ("}"@ + x);
        let s = entry_lines(other.drop_first()) + ("}"@ + y);
        lemma_line_decodes(one[0], r, other[0], s);
        lemma_entries_decode(one.drop_first(), x, other.drop_first(), y);
        assert(one =~= seq![one[0]] + one.drop_first());
        assert(other =~= seq![other[0]] + other.drop_first());
    }
}

/// A row can be told from what follows.
proof fn lemma_row_decodes(
    one: Seq<(TokenId, StateId)>,
    x: Seq<char>,
    other: Seq<(TokenId, StateId)>,
    y: Seq<char>,
)
    requires
        row_text(one) + x == row_text(other) + y,
    ensures
        one == other,
        x == y,
{
    lemma_row_begins(one, x);
    lemma_row_begins(other, y);
    if one.len() == 0 {
        lemma_cancel("{}"@, x, "{}"@, y);
        assert(one =~= other);
    } else {
        let p = entry_lines(one) + ("}"@ + x);
        let q = entry_lines(other) + ("}"@ + y);
        lemma_cancel("{\n"@, p, "{\n"@, q);
        lemma_entries_decode(one, x, other, y);
    }
}

proof fn lemma_row_begins(entries: Seq<(TokenId, StateId)>, x: Seq<char>)
    ensures
        (row_text(entries) + x)[1] == if entries.len() == 0 {
            '}'
        } else {
            '\n'
        },
        entries.len() > 0 ==> row_text(entries) + x == "{\n"@ + (entry_lines(entries) + ("}"@ + x)),
{
    reveal_strlit("{}");
    reveal_strlit("{\n");
    if entries.len() > 0 {
        assert(row_text(entries) + x =~= "{\n"@ + (entry_lines(entries) + ("}"@ + x)));
    }
}

/// A state and its row can be told from what follows.
proof fn lemma_block_decodes(
    a: (StateId, Seq<(TokenId, StateId)>),
    x: Seq<char>,
    b: (StateId, Seq<(TokenId, StateId)>),
    y: Seq<char>,
)
    requires
        block(a) + x == block(b) + y,
    ensures
        a == b,
        x == y,
{
    reveal_strlit(" -> ");
    let (a0, b0) = (decimal(a.0 as nat), decimal(b.0 as nat));
    let (a1, b1) = (row_text(a.1), row_text(b.1));
    lemma_pieces(a0, " -> "@, a1, "\n"@, Seq::empty(), x);
    lemma_pieces(b0, " -> "@, b1, "\n"@, Seq::empty(), y);
    let p = a1 + ("\n"@ + x);
    let q = b1 + ("\n"@ + y);
    assert((" -> "@ + p)[0] == ' ');
    assert((" -> "@ + q)[0] == ' ');
    lemma_number_decodes(a.0 as nat, " -> "@ + p, b.0 as nat, " -> "@ + q);
    lemma_cancel(" -> "@, p, " -> "@, q);
    lemma_row_decodes(a.1, "\n"@ + x, b.1, "\n"@ + y);
    lemma_cancel("\n"@, x, "\n"@, y);
}

/// The states and their rows can be told apart.
proof fn lemma_rows_decode(
    one: Seq<(StateId, Seq<(TokenId, StateId)>)>,
    other: Seq<(StateId, Seq<(TokenId, StateId)>)>,
)
    requires
        rows_text(one) == rows_text(other),
    ensures
        one == other,
    decreases one.len(),
{
    if one.len() > 0 {
        lemma_rows_front(one);
        law_decimal(one[0].0 as nat);
    }
    if other.len() > 0 {
        lemma_rows_front(other);
        law_decimal(other[0].0 as nat);
    }
    if one.len() == 0 || other.len() == 0 {
        assert(one =~= other);
    } else {
        lemma_block_decodes(
            one[0],
            rows_text(one.drop_first()),
            other[0],
            rows_text(other.drop_first()),
        );
        lemma_rows_decode(one.drop_first(), other.drop_first());
        assert(one =~= seq![one[0]] + one.drop_first());
        assert(other =~= seq![other[0]] + other.drop_first());
    }
}

/// A text shows only one index: if it shows the transitions of two, these are the same, state by
/// state, identifier by identifier and target by target.
pub proof fn law_text_determines_transitions(
    text: Seq<char>,
    one: Map<StateId, Map<TokenId, StateId>>,
    other: Map<StateId, Map<TokenId, StateId>>,
)
    requires
        shows(text, one),
        shows(text, other),
    ensures
        one == other,
{
    let heading = "Index object with transitions:\n"@;
    let a = choose|rows: Seq<(StateId, Seq<(TokenId, StateId)>)>| #[trigger]
        lists_transitions(rows, one) && text == heading + rows_text(rows);
    let b = choose|rows: Seq<(StateId, Seq<(TokenId, StateId)>)>| #[trigger]
        lists_transitions(rows, other) && text == heading + rows_text(rows);
    lemma_cancel(heading, rows_text(a), heading, rows_text(b));
    lemma_rows_decode(a, b);
    lemma_listed_transitions(a, one, other);
    lemma_listed_transitions(a, other, one);
    assert(one.dom() =~= other.dom());
    assert(one =~= other);
}

proof fn lemma_listed_transitions(
    rows: Seq<(StateId, Seq<(TokenId, StateId)>)>,
    one: Map<StateId, Map<TokenId, StateId>>,
    other: Map<StateId, Map<TokenId, StateId>>,
)
    requires
        lists_transitions(rows, one),
        lists_transitions(rows, other),
    ensures
        forall|state: StateId| #[trigger]
            one.contains_key(state) ==> other.contains_key(state) && one[state] == other[state],
{
    assert forall|state: StateId| #[trigger] one.contains_key(state) implies other.contains_key(
        state,
    ) && one[state] == other[state] by {
        let i = choose|i: int| 0 <= i < rows.len() && (#[trigger] rows[i]).0 == state;
        let entries = rows[i].1;
        assert(lists_row(entries, one[state]) && lists_row(entries, other[state]));
        assert forall|id: TokenId| #[trigger] one[state].contains_key(id) <==> other[state].contains_key(
            id,
        ) by {
            if one[state].contains_key(id) {
                let k = choose|k: int| 0 <= k < entries.len() && (#[trigger] entries[k]).0 == id;
                assert(other[state].contains_key(entries[k].0));
            }
            if other[state].contains_key(id) {
                let k = choose|k: int| 0 <= k < entries.len() && (#[trigger] entries[k]).0 == id;
                assert(one[state].contains_key(entries[k].0));
            }
        }
        assert forall|id: TokenId| #[trigger] one[state].contains_key(id) implies one[state][id]
            == other[state][id] by {
            let k = choose|k: int| 0 <= k < entries.len() && (#[trigger] entries[k]).0 == id;
        }
        assert(one[state] =~= other[state]);
    }
}

/// The text is the heading and then, for each state in some order, the state, an arrow and its
/// row: `{}` if it is empty, and else a brace, a line for each identifier with its target in some
/// order, and a brace. Every state is there once, and every identifier once in its row.
pub proof fn law_text_layout(text: Seq<char>, transitions: Map<StateId, Map<TokenId, StateId>>)
    requires
        shows(text, transitions),
    ensures
        exists|rows: Seq<(StateId, Seq<(TokenId, StateId)>)>|
            #![trigger rows.len()]
            {
                let states = rows.map_values(|row: (StateId, Seq<(TokenId, StateId)>)| row.0);
                &&& states.no_duplicates()
                &&& states.to_set() == transitions.dom()
                &&& forall|i: int|
                    0 <= i < rows.len() ==> {
                        let ids = (#[trigger] rows[i]).1.map_values(
                            |entry: (TokenId, StateId)| entry.0,
                        );
                        ids.no_duplicates() && ids.to_set() == transitions[rows[i].0].dom()
                    }
                &&& forall|i: int, k: int|
                    0 <= i < rows.len() && 0 <= k < rows[i].1.len() ==> transitions[rows[i].0][(
                    #[trigger] rows[i].1[k]).0] == rows[i].1[k].1
                &&& text == "Index object with transitions:\n"@ + rows.map_values(
                    |row: (StateId, Seq<(TokenId, StateId)>)|
                        decimal(row.0 as nat) + " -> "@ + (if row.1.len() == 0 {
                            "{}"@
                        } else {
                            "{\n"@ + row.1.map_values(
                                |entry: (TokenId, StateId)|
                                    "    "@ + decimal(entry.0 as nat) + ": "@ + decimal(
                                        entry.1 as nat,
                                    ) + ",\n"@,
                            ).flatten() + "}"@
                        }) + "\n"@,
                ).flatten()
            },
{
    let rows = choose|rows: Seq<(StateId, Seq<(TokenId, StateId)>)>| #[trigger]
        lists_transitions(rows, transitions) && text == "Index object with transitions:\n"@
            + rows_text(rows);
    let states = rows.map_values(|row: (StateId, Seq<(TokenId, StateId)>)| row.0);
    assert(rows.len() == states.len());
    assert(states.to_set() =~= transitions.dom()) by {
        assert forall|state: StateId| states.to_set().contains(state) <==> #[trigger]
            transitions.dom().contains(state) by {
            if transitions.contains_key(state) {
                let i = choose|i: int| 0 <= i < rows.len() && (#[trigger] rows[i]).0 == state;
                assert(states[i] == state);
            }
            if states.contains(state) {
                let i = choose|i: int| 0 <= i < states.len() && states[i] == state;
                assert(transitions.contains_key(rows[i].0));
            }
        }
    }
    assert(states.no_duplicates()) by {
        assert forall|i: int, j: int|
            0 <= i < states.len() && 0 <= j < states.len() && i != j implies states[i]
            != states[j] by {
            if i < j {
                assert(rows[i].0 != rows[j].0);
            } else {
                assert(rows[j].0 != rows[i].0);
            }
        }
    }
    assert forall|i: int| 0 <= i < rows.len() implies {
        let ids = (#[trigger] rows[i]).1.map_values(|entry: (TokenId, StateId)| entry.0);
        ids.no_duplicates() && ids.to_set() == transitions[rows[i].0].dom()
    } by {
        lemma_listed_ids(rows[i].1, transitions[rows[i].0]);
    }
    assert forall|i: int, k: int|
        0 <= i < rows.len() && 0 <= k < rows[i].1.len() implies transitions[rows[i].0][(
    #[trigger] rows[i].1[k]).0] == rows[i].1[k].1 by {
        assert(lists_row(rows[i].1, transitions[rows[i].0]));
    }
    lemma_rows_flatten(rows);
    let blocks = rows.map_values(
        |row: (StateId, Seq<(TokenId, StateId)>)|
            decimal(row.0 as nat) + " -> "@ + (if row.1.len() == 0 {
                "{}"@
            } else {
                "{\n"@ + row.1.map_values(
                    |entry: (TokenId, StateId)|
                        "    "@ + decimal(entry.0 as nat) + ": "@ + decimal(entry.1 as nat) + ",\n"@,
                ).flatten() + "}"@
            }) + "\n"@,
    );
    assert(blocks =~= rows.map_values(|row: (StateId, Seq<(TokenId, StateId)>)| block(row))) by {
        assert forall|i: int| 0 <= i < rows.len() implies #[trigger] blocks[i] == block(rows[i]) by {
            lemma_lines_flatten(rows[i].1);
            let entries = rows[i].1;
            assert(entries.map_values(
                |entry: (TokenId, StateId)|
                    "    "@ + decimal(entry.0 as nat) + ": "@ + decimal(entry.1 as nat) + ",\n"@,
            ) =~= entries.map_values(|entry: (TokenId, StateId)| entry_line(entry)));
        }
    }
}

proof fn lemma_listed_ids(entries: Seq<(TokenId, StateId)>, row: Map<TokenId, StateId>)
    requires
        lists_row(entries, row),
    ensures
        ({
            let ids = entries.map_values(|entry: (TokenId, StateId)| entry.0);
            ids.no_duplicates() && ids.to_set() == row.dom()
        }),
{
    let ids = entries.map_values(|entry: (TokenId, StateId)| entry.0);
    assert forall|i: int, j: int|
        0 <= i < ids.len() && 0 <= j < ids.len() && i != j implies ids[i] != ids[j] by {
        if i < j {
            assert(entries[i].0 != entries[j].0);
        } else {
            assert(entries[j].0 != entries[i].0);
        }
    }
    assert forall|id: TokenId| ids.to_set().contains(id) <==> #[trigger] row.dom().contains(id) by {
        if row.contains_key(id) {
            let k = choose|k: int| 0 <= k < entries.len() && (#[trigger] entries[k]).0 == id;
            assert(ids[k] == id);
        }
        if ids.contains(id) {
            let k = choose|k: int| 0 <= k < ids.len() && ids[k] == id;
            assert(row.contains_key(entries[k].0));
        }
    }
    assert(ids.to_set() =~= row.dom());
}

proof fn lemma_lines_flatten(entries: Seq<(TokenId, StateId)>)
    ensures
        entry_lines(entries) == entries.map_values(
            |entry: (TokenId, StateId)| entry_line(entry),
        ).flatten(),
    decreases entries.len(),
{
    let lines = entries.map_values(|entry: (TokenId, StateId)| entry_line(entry));
    lines.lemma_flatten_and_flatten_alt_are_equivalent();
    if entries.len() > 0 {
        let before = entries.drop_last();
        let earlier = before.map_values(|entry: (TokenId, StateId)| entry_line(entry));
        lemma_lines_flatten(before);
        earlier.lemma_flatten_and_flatten_alt_are_equivalent();
        assert(lines.drop_last() =~= earlier);
        assert(entry_lines(entries) =~= entry_lines(before) + entry_line(entries.last()));
    }
}

proof fn lemma_rows_flatten(rows: Seq<(StateId, Seq<(TokenId, StateId)>)>)
    ensures
        rows_text(rows) == rows.map_values(
            |row: (StateId, Seq<(TokenId, StateId)>)| block(row),
        ).flatten(),
    decreases rows.len(),
{
    let blocks = rows.map_values(|row: (StateId, Seq<(TokenId, StateId)>)| block(row));
    blocks.lemma_flatten_and_flatten_alt_are_equivalent();
    if rows.len() > 0 {
        let before = rows.drop_last();
        let earlier = before.map_values(|row: (StateId, Seq<(TokenId, StateId)>)| block(row));
        lemma_rows_flatten(before);
        earlier.lemma_flatten_and_flatten_alt_are_equivalent();
        assert(blocks.drop_last() =~= earlier);
        assert(rows_text(rows) =~= rows_text(before) + block(rows.last()));
    }
}

} // verus!
