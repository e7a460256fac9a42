//! What a reader of the side-car learns from its text.
use crate::coverage::{
    data_extents, map_is_empty_only_for_empty_file, map_keeps_the_extents,
    map_tells_data_from_holes, map_tiles_the_file, run_contains, run_end,
};
use crate::data_map::{range_overlaps, well_formed, within};
use crate::decimal::{
    decimal, decimal_is_digits, decimal_is_injective, decimal_stands_for_the_number, is_digit,
    number_value,
};
use crate::map::{bool_text, entry_text, joined_text, map_entries, map_text, MapEntry};
use vstd::prelude::*;
use vstd::utf8::{encode_utf8, is_ascii_chars, is_ascii_chars_encode_utf8};

verus! {

proof fn lemma_strip(prefix: Seq<char>, x: Seq<char>, y: Seq<char>)
    requires
        prefix + x == prefix + y,
    ensures
        x == y,
{
    assert(x =~= (prefix + x).skip(prefix.len() as int));
    assert(y =~= (prefix + y).skip(prefix.len() as int));
}

proof fn lemma_regroup(x: Seq<char>, y: Seq<char>, z: Seq<char>)
    ensures
        (x + y) + z == x + (y + z),
{
    assert((x + y) + z =~= x + (y + z));
}

/// A number that something other than a digit follows can be told from the text.
proof fn lemma_number_ends(m: nat, x: Seq<char>, n: nat, y: Seq<char>)
    requires
        decimal(m) + x == decimal(n) + y,
        x.len() > 0 && !is_digit(x[0]),
        y.len() > 0 && !is_digit(y[0]),
    ensures
        m == n,
        x == y,
{
    let dm = decimal(m);
    let dn = decimal(n);
    decimal_is_digits(m);
    decimal_is_digits(n);
    if dm.len() < dn.len() {
        assert((dm + x)[dm.len() as int] == x[0]);
        assert((dn + y)[dm.len() as int] == dn[dm.len() as int]);
    }
    if dn.len() < dm.len() {
        assert((dn + y)[dn.len() as int] == y[0]);
        assert((dm + x)[dn.len() as int] == dm[dn.len() as int]);
    }
    assert(dm =~= (dm + x).take(dm.len() as int));
    assert(dn =~= (dn + y).take(dn.len() as int));
    decimal_is_injective(m, n);
    lemma_strip(dm, x, y);
}

/// A bool can be told from the first letter of its text.
proof fn lemma_bool_ends(p: bool, x: Seq<char>, q: bool, y: Seq<char>)
    requires
        bool_text(p) + x == bool_text(q) + y,
    ensures
        p == q,
        x == y,
{
    reveal_strlit("true");
    reveal_strlit("false");
    assert((bool_text(p) + x)[0] == bool_text(p)[0]);
    assert((bool_text(q) + y)[0] == bool_text(q)[0]);
    lemma_strip(bool_text(p), x, y);
}

/// What follows the length in the text of an entry.
spec fn after_length(entry: MapEntry, rest: Seq<char>) -> Seq<char> {
    ", \"depth\": 0, \"present\": true, \"zero\": "@ + (bool_text(!entry.data) + (", \"data\": "@
        + (bool_text(entry.data) + (", \"compressed\": false, \"offset\": "@ + (decimal(
        entry.start as nat,
    ) + ("}"@ + rest))))))
}

/// What follows the start in the text of an entry.
spec fn after_start(entry: MapEntry, rest: Seq<char>) -> Seq<char> {
    ", \"length\": "@ + (decimal(entry.length as nat) + after_length(entry, rest))
}

proof fn lemma_entry_text_splits(entry: MapEntry, rest: Seq<char>)
    ensures
        entry_text(entry) + rest == "{ \"start\": "@ + (decimal(entry.start as nat) + after_start(
            entry,
            rest,
        )),
{
    let start = decimal(entry.start as nat);
    let t1 = "{ \"start\": "@ + start;
    let t2 = t1 + ", \"length\": "@;
    let t3 = t2 + decimal(entry.length as nat);
    let t4 = t3 + ", \"depth\": 0, \"present\": true, \"zero\": "@;
    let t5 = t4 + bool_text(!entry.data);
    let t6 = t5 + ", \"data\": "@;
    let t7 = t6 + bool_text(entry.data);
    let t8 = t7 + ", \"compressed\": false, \"offset\": "@;
    let t9 = t8 + start;
    let r9 = "}"@ + rest;
    let r8 = start + r9;
    let r7 = ", \"compressed\": false, \"offset\": "@ + r8;
    let r6 = bool_text(entry.data) + r7;
    let r5 = ", \"data\": "@ + r6;
    let r4 = bool_text(!entry.data) + r5;
    lemma_regroup(t9, "}"@, rest);
    lemma_regroup(t8, start, r9);
    lemma_regroup(t7, ", \"compressed\": false, \"offset\": "@, r8);
    lemma_regroup(t6, bool_text(entry.data), r7);
    lemma_regroup(t5, ", \"data\": "@, r6);
    lemma_regroup(t4, bool_text(!entry.data), r5);
    lemma_regroup(t3, ", \"depth\": 0, \"present\": true, \"zero\": "@, r4);
    lemma_regroup(t2, decimal(entry.length as nat), after_length(entry, rest));
    lemma_regroup(
        t1,
        ", \"length\": "@,
        decimal(entry.length as nat) + after_length(entry, rest),
    );
    lemma_regroup("{ \"start\": "@, start, after_start(entry, rest));
}

/// Where the text of an entry ends, and what the entry is, can be told from the text.
proof fn lemma_entry_ends(e: MapEntry, x: Seq<char>, f: MapEntry, y: Seq<char>)
    requires
        entry_text(e) + x == entry_text(f) + y,
    ensures
        e == f,
        x == y,
{
    reveal_strlit(", \"length\": ");
    reveal_strlit(", \"depth\": 0, \"present\": true, \"zero\": ");
    reveal_strlit("}");
    lemma_entry_text_splits(e, x);
    lemma_entry_text_splits(f, y);
    lemma_strip(
        "{ \"start\": "@,
        decimal(e.start as nat) + after_start(e, x),
        decimal(f.start as nat) + after_start(f, y),
    );
    lemma_number_ends(e.start as nat, after_start(e, x), f.start as nat, after_start(f, y));
    lemma_strip(
        ", \"length\": "@,
        decimal(e.length as nat) + after_length(e, x),
        decimal(f.length as nat) + after_length(f, y),
    );
    lemma_number_ends(e.length as nat, after_length(e, x), f.length as nat, after_length(f, y));
    let ex = decimal(e.start as nat) + ("}"@ + x);
    let fy = decimal(f.start as nat) + ("}"@ + y);
    let ed = bool_text(e.data) + (", \"compressed\": false, \"offset\": "@ + ex);
    let fd = bool_text(f.data) + (", \"compressed\": false, \"offset\": "@ + fy);
    lemma_strip(
        ", \"depth\": 0, \"present\": true, \"zero\": "@,
        bool_text(!e.data) + (", \"data\": "@ + ed),
        bool_text(!f.data) + (", \"data\": "@ + fd),
    );
    lemma_bool_ends(!e.data, ", \"data\": "@ + ed, !f.data, ", \"data\": "@ + fd);
    lemma_strip(", \"data\": "@, ed, fd);
    lemma_strip(
        bool_text(e.data),
        ", \"compressed\": false, \"offset\": "@ + ex,
        ", \"compressed\": false, \"offset\": "@ + fy,
    );
    lemma_strip(", \"compressed\": false, \"offset\": "@, ex, fy);
    lemma_strip(decimal(e.start as nat), "}"@ + x, "}"@ + y);
    lemma_strip("}"@, x, y);
}

/// The text of entries that follow another one.
spec fn following_text(entries: Seq<MapEntry>) -> Seq<char>
    decreases entries.len(),
{
    if entries.len() == 0 {
        Seq::empty()
    } else {
        ",\n"@ + (entry_text(entries[0]) + following_text(entries.drop_first()))
    }
}

proof fn lemma_following_text_push(entries: Seq<MapEntry>, entry: MapEntry)
    ensures
        following_text(entries.push(entry)) == following_text(entries) + ",\n"@ + entry_text(entry),
    decreases entries.len(),
{
    if entries.len() == 0 {
        assert(entries.push(entry).drop_first() =~= Seq::<MapEntry>::empty());
        assert(following_text(entries.push(entry).drop_first()) =~= Seq::<char>::empty());
    } else {
        lemma_following_text_push(entries.drop_first(), entry);
        assert(entries.push(entry).drop_first() =~= entries.drop_first().push(entry));
    }
    assert(following_text(entries.push(entry)) =~= following_text(entries) + ",\n"@ + entry_text(
        entry,
    ));
}

proof fn lemma_joined_text_from_front(entries: Seq<MapEntry>)
    requires
        entries.len() > 0,
    ensures
        joined_text(entries) == entry_text(entries[0]) + following_text(entries.drop_first()),
    decreases entries.len(),
{
    if entries.len() == 1 {
        assert(entries.drop_first() =~= Seq::<MapEntry>::empty());
        assert(following_text(entries.drop_first()) =~= Seq::<char>::empty());
    } else {
        let before = entries.drop_last();
        lemma_joined_text_from_front(before);
        lemma_following_text_push(before.drop_first(), entries.last());
        assert(before.drop_first().push(entries.last()) =~= entries.drop_first());
    }
    assert(joined_text(entries) =~= entry_text(entries[0]) + following_text(entries.drop_first()));
}

proof fn lemma_following_text_is_injective(a: Seq<MapEntry>, b: Seq<MapEntry>)
    requires
        following_text(a) + "]\n"@ == following_text(b) + "]\n"@,
    ensures
        a == b,
    decreases a.len(),
{
    reveal_strlit(",\n");
    reveal_strlit("]\n");
    let end = "]\n"@;
    assert(a.len() == 0 ==> (following_text(a) + end)[0] == ']');
    assert(a.len() > 0 ==> (following_text(a) + end)[0] == ',');
    assert(b.len() == 0 ==> (following_text(b) + end)[0] == ']');
    assert(b.len() > 0 ==> (following_text(b) + end)[0] == ',');
    if a.len() > 0 {
        let x = following_text(a.drop_first()) + end;
        let y = following_text(b.drop_first()) + end;
        assert(following_text(a) + end =~= ",\n"@ + (entry_text(a[0]) + x));
        assert(following_text(b) + end =~= ",\n"@ + (entry_text(b[0]) + y));
        lemma_strip(",\n"@, entry_text(a[0]) + x, entry_text(b[0]) + y);
        lemma_entry_ends(a[0], x, b[0], y);
        lemma_following_text_is_injective(a.drop_first(), b.drop_first());
        assert(a =~= seq![a[0]] + a.drop_first());
        assert(b =~= seq![b[0]] + b.drop_first());
    } else {
        assert(a =~= b);
    }
}

/// The text of an entry starts with a brace.
proof fn lemma_entry_starts(entry: MapEntry)
    ensures
        entry_text(entry).len() > 0,
        entry_text(entry)[0] == '{',
{
    reveal_strlit("{ \"start\": ");
    let rest = decimal(entry.start as nat) + after_start(entry, Seq::empty());
    lemma_entry_text_splits(entry, Seq::empty());
    assert(entry_text(entry) + Seq::empty() =~= entry_text(entry));
    assert(("{ \"start\": "@ + rest)[0] == '{');
}

/// The text of a map without its opening bracket tells at once whether there are entries.
proof fn lemma_joined_text_starts(entries: Seq<MapEntry>)
    ensures
        entries.len() == 0 ==> (joined_text(entries) + "]\n"@)[0] == ']',
        entries.len() > 0 ==> (joined_text(entries) + "]\n"@)[0] == '{',
        entries.len() > 0 ==> joined_text(entries) + "]\n"@ == entry_text(entries[0]) + (
        following_text(entries.drop_first()) + "]\n"@),
{
    let end = "]\n"@;
    if entries.len() == 0 {
        reveal_strlit("]\n");
        assert(joined_text(entries) + end =~= end);
    } else {
        let rest = following_text(entries.drop_first()) + end;
        lemma_joined_text_from_front(entries);
        lemma_entry_starts(entries[0]);
        assert(joined_text(entries) + end =~= entry_text(entries[0]) + rest);
        assert((entry_text(entries[0]) + rest)[0] == entry_text(entries[0])[0]);
    }
}

/// The text of a map determines its entries.
pub proof fn text_determines_entries(a: Seq<MapEntry>, b: Seq<MapEntry>)
    requires
        map_text(a) == map_text(b),
    ensures
        a == b,
{
    let end = "]\n"@;
    assert(map_text(a) =~= "["@ + (joined_text(a) + end));
    assert(map_text(b) =~= "["@ + (joined_text(b) + end));
    lemma_strip("["@, joined_text(a) + end, joined_text(b) + end);
    lemma_joined_text_starts(a);
    lemma_joined_text_starts(b);
    if a.len() > 0 {
        let x = following_text(a.drop_first()) + end;
        let y = following_text(b.drop_first()) + end;
        lemma_entry_ends(a[0], x, b[0], y);
        lemma_following_text_is_injective(a.drop_first(), b.drop_first());
        assert(a =~= seq![a[0]] + a.drop_first());
        assert(b =~= seq![b[0]] + b.drop_first());
    } else {
        assert(a =~= b);
    }
}

/// What one object of the array says.
pub struct RunObject {
    pub start: int,
    pub length: int,
    pub depth: int,
    pub present: bool,
    pub zero: bool,
    pub data: bool,
    pub compressed: bool,
    pub offset: int,
}

/// What follows `literal` in a text that starts with it.
pub open spec fn skip_literal(text: Seq<char>, literal: Seq<char>) -> Option<Seq<char>> {
    if literal.len() <= text.len() && text.take(literal.len() as int) == literal {
        Some(text.skip(literal.len() as int))
    } else {
        None
    }
}

/// The number of digits that a text starts with.
pub open spec fn leading_digits(text: Seq<char>) -> nat
    decreases text.len(),
{
    if text.len() > 0 && '0' <= text[0] <= '9' {
        1 + leading_digits(text.drop_first())
    } else {
        0
    }
}

/// The number that a text starts with, and what follows it. JSON has no leading zeroes.
pub open spec fn read_number(text: Seq<char>) -> Option<(int, Seq<char>)> {
    let digits = leading_digits(text) as int;
    if digits == 0 || (digits > 1 && text[0] == '0') {
        None
    } else {
        Some((number_value(text.take(digits)), text.skip(digits)))
    }
}

/// The bool that a text starts with, and what follows it.
pub open spec fn read_bool(text: Seq<char>) -> Option<(bool, Seq<char>)> {
    match skip_literal(text, "true"@) {
        Some(rest) => Some((true, rest)),
        None => match skip_literal(text, "false"@) {
            Some(rest) => Some((false, rest)),
            None => None,
        },
    }
}

/// The number that stands behind `key`, and what follows it.
pub open spec fn read_number_field(text: Seq<char>, key: Seq<char>) -> Option<(int, Seq<char>)> {
    match skip_literal(text, key) {
        Some(rest) => read_number(rest),
        None => None,
    }
}

/// The bool that stands behind `key`, and what follows it.
pub open spec fn read_bool_field(text: Seq<char>, key: Seq<char>) -> Option<(bool, Seq<char>)> {
    match skip_literal(text, key) {
        Some(rest) => read_bool(rest),
        None => None,
    }
}

/// The object that a text starts with, and what follows it.
#[verifier::opaque]
pub open spec fn read_object(text: Seq<char>) -> Option<(RunObject, Seq<char>)> {
    match read_number_field(text, "{ \"start\": "@) {
        None => None,
        Some((start, t1)) => match read_number_field(t1, ", \"length\": "@) {
            None => None,
            Some((length, t2)) => match read_number_field(t2, ", \"depth\": "@) {
                None => None,
                Some((depth, t3)) => match read_bool_field(t3, ", \"present\": "@) {
                    None => None,
                    Some((present, t4)) => match read_bool_field(t4, ", \"zero\": "@) {
                        None => None,
                        Some((zero, t5)) => match read_bool_field(t5, ", \"data\": "@) {
                            None => None,
                            Some((data, t6)) => match read_bool_field(t6, ", \"compressed\": "@) {
                                None => None,
                                Some((compressed, t7)) => match read_number_field(
                                    t7,
                                    ", \"offset\": "@,
                                ) {
                                    None => None,
                                    Some((offset, t8)) => match skip_literal(t8, "}"@) {
                                        None => None,
                                        Some(rest) => Some(
                                            (
                                                RunObject {
                                                    start,
                                                    length,
                                                    depth,
                                                    present,
                                                    zero,
                                                    data,
                                                    compressed,
                                                    offset,
                                                },
                                                rest,
                                            ),
                                        ),
                                    },
                                },
                            },
                        },
                    },
                },
            },
        },
    }
}

/// The objects that follow another one up to the end of the array, each behind a comma and a
/// line break. Nothing but a line break follows the array.
pub open spec fn read_following(text: Seq<char>) -> Option<Seq<RunObject>>
    decreases text.len(),
{
    if text == seq![']', '\n'] {
        Some(Seq::empty())
    } else {
        match skip_literal(text, seq![',', '\n']) {
            None => None,
            Some(behind) => match read_object(behind) {
                Some((object, rest)) if rest.len() < text.len() => match read_following(rest) {
                    Some(objects) => Some(seq![object] + objects),
                    None => None,
                },
                _ => None,
            },
        }
    }
}

/// The objects of an array.
pub open spec fn read_map(text: Seq<char>) -> Option<Seq<RunObject>> {
    if text == seq!['[', ']', '\n'] {
        Some(Seq::empty())
    } else {
        match skip_literal(text, seq!['[']) {
            None => None,
            Some(inside) => match read_object(inside) {
                None => None,
                Some((object, rest)) => match read_following(rest) {
                    Some(objects) => Some(seq![object] + objects),
                    None => None,
                },
            },
        }
    }
}

proof fn lemma_skip_literal(literal: Seq<char>, rest: Seq<char>)
    ensures
        skip_literal(literal + rest, literal) == Some(rest),
{
    assert((literal + rest).take(literal.len() as int) =~= literal);
    assert((literal + rest).skip(literal.len() as int) =~= rest);
}

proof fn lemma_leading_digits(digits: Seq<char>, rest: Seq<char>)
    requires
        forall|i: int| 0 <= i < digits.len() ==> '0' <= #[trigger] digits[i] <= '9',
        rest.len() > 0 && !('0' <= rest[0] <= '9'),
    ensures
        leading_digits(digits + rest) == digits.len(),
    decreases digits.len(),
{
    if digits.len() == 0 {
        assert(digits + rest =~= rest);
    } else {
        let others = digits.drop_first();
        assert forall|i: int| 0 <= i < others.len() implies '0' <= #[trigger] others[i] <= '9' by {
            assert(others[i] == digits[i + 1]);
        }
        lemma_leading_digits(others, rest);
        assert((digits + rest)[0] == digits[0]);
        assert((digits + rest).drop_first() =~= others + rest);
    }
}

proof fn lemma_number_field_reads_back(key: Seq<char>, n: nat, rest: Seq<char>)
    requires
        rest.len() > 0 && !('0' <= rest[0] <= '9'),
    ensures
        read_number_field(key + (decimal(n) + rest), key) == Some((n as int, rest)),
{
    let digits = decimal(n);
    lemma_skip_literal(key, digits + rest);
    decimal_stands_for_the_number(n);
    lemma_leading_digits(digits, rest);
    assert((digits + rest)[0] == digits[0]);
    assert((digits + rest).take(digits.len() as int) =~= digits);
    assert((digits + rest).skip(digits.len() as int) =~= rest);
}

proof fn lemma_bool_field_reads_back(key: Seq<char>, value: bool, rest: Seq<char>)
    ensures
        read_bool_field(key + (bool_text(value) + rest), key) == Some((value, rest)),
{
    let text = bool_text(value) + rest;
    lemma_skip_literal(key, text);
    lemma_skip_literal(bool_text(value), rest);
    if !value {
        reveal_strlit("true");
        reveal_strlit("false");
        assert(text[0] == 'f');
        if skip_literal(text, "true"@) is Some {
            assert(text.take(4)[0] == text[0]);
            assert("true"@[0] == 't');
        }
    }
}

/// The constant fields of an object, read one by one.
proof fn lemma_constant_fields()
    ensures
        ", \"depth\": 0, \"present\": true, \"zero\": "@ == ", \"depth\": "@ + (decimal(0) + (
        ", \"present\": "@ + (bool_text(true) + ", \"zero\": "@))),
        ", \"compressed\": false, \"offset\": "@ == ", \"compressed\": "@ + (bool_text(false)
            + ", \"offset\": "@),
{
    reveal_strlit(", \"depth\": 0, \"present\": true, \"zero\": ");
    reveal_strlit(", \"depth\": ");
    reveal_strlit(", \"present\": ");
    reveal_strlit(", \"zero\": ");
    reveal_strlit(", \"compressed\": false, \"offset\": ");
    reveal_strlit(", \"compressed\": ");
    reveal_strlit(", \"offset\": ");
    reveal_strlit("true");
    reveal_strlit("false");
    assert(decimal(0) == seq!['0']);
    assert(", \"depth\": 0, \"present\": true, \"zero\": "@ =~= ", \"depth\": "@ + (decimal(0) + (
    ", \"present\": "@ + (bool_text(true) + ", \"zero\": "@))));
    assert(", \"compressed\": false, \"offset\": "@ =~= ", \"compressed\": "@ + (bool_text(false)
        + ", \"offset\": "@));
}

/// A reader of the object of an entry finds the entry's start and length, the start once more as
/// the offset, depth nought, present, not compressed, and zero where the entry is not data. What
/// follows the object is left to read.
pub proof fn object_reads_back(entry: MapEntry, rest: Seq<char>)
    ensures
        read_object(entry_text(entry) + rest) == Some(
            (
                RunObject {
                    start: entry.start as int,
                    length: entry.length as int,
                    depth: 0,
                    present: true,
                    zero: !entry.data,
                    data: entry.data,
                    compressed: false,
                    offset: entry.start as int,
                },
                rest,
            ),
        ),
{
    let start = decimal(entry.start as nat);
    let r8 = "}"@ + rest;
    let r7 = ", \"offset\": "@ + (start + r8);
    let r6 = ", \"compressed\": "@ + (bool_text(false) + r7);
    let r5 = ", \"data\": "@ + (bool_text(entry.data) + r6);
    let r4 = ", \"zero\": "@ + (bool_text(!entry.data) + r5);
    let r3 = ", \"present\": "@ + (bool_text(true) + r4);
    let r2 = ", \"depth\": "@ + (decimal(0) + r3);
    let r1 = ", \"length\": "@ + (decimal(entry.length as nat) + r2);
    lemma_entry_text_splits(entry, rest);
    lemma_constant_fields();
    // The constant fields stand in the text as two literals.
    let offset_key = ", \"offset\": "@;
    lemma_regroup(", \"compressed\": "@, bool_text(false) + offset_key, start + r8);
    lemma_regroup(bool_text(false), offset_key, start + r8);
    assert(", \"compressed\": false, \"offset\": "@ + (start + r8) == r6);
    let zero_key = ", \"zero\": "@;
    let present = bool_text(true) + zero_key;
    let present_key = ", \"present\": "@ + present;
    let tail = bool_text(!entry.data) + r5;
    lemma_regroup(", \"depth\": "@, decimal(0) + present_key, tail);
    lemma_regroup(decimal(0), present_key, tail);
    lemma_regroup(", \"present\": "@, present, tail);
    lemma_regroup(bool_text(true), zero_key, tail);
    assert(after_length(entry, rest) == r2);
    assert(entry_text(entry) + rest == "{ \"start\": "@ + (start + r1));
    lemma_object_fields(entry, rest, r1, r2, r3, r4, r5, r6, r7, r8);
}

proof fn lemma_object_fields(
    entry: MapEntry,
    rest: Seq<char>,
    r1: Seq<char>,
    r2: Seq<char>,
    r3: Seq<char>,
    r4: Seq<char>,
    r5: Seq<char>,
    r6: Seq<char>,
    r7: Seq<char>,
    r8: Seq<char>,
)
    requires
        entry_text(entry) + rest == "{ \"start\": "@ + (decimal(entry.start as nat) + r1),
        r1 == ", \"length\": "@ + (decimal(entry.length as nat) + r2),
        r2 == ", \"depth\": "@ + (decimal(0) + r3),
        r3 == ", \"present\": "@ + (bool_text(true) + r4),
        r4 == ", \"zero\": "@ + (bool_text(!entry.data) + r5),
        r5 == ", \"data\": "@ + (bool_text(entry.data) + r6),
        r6 == ", \"compressed\": "@ + (bool_text(false) + r7),
        r7 == ", \"offset\": "@ + (decimal(entry.start as nat) + r8),
        r8 == "}"@ + rest,
    ensures
        read_object(entry_text(entry) + rest) == Some(
            (
                RunObject {
                    start: entry.start as int,
                    length: entry.length as int,
                    depth: 0,
                    present: true,
                    zero: !entry.data,
                    data: entry.data,
                    compressed: false,
                    offset: entry.start as int,
                },
                rest,
            ),
        ),
{
    assert(r1.len() > 0 && r1[0] == ',') by {
        reveal_strlit(", \"length\": ");
    }
    assert(r2.len() > 0 && r2[0] == ',') by {
        reveal_strlit(", \"depth\": ");
    }
    assert(r3.len() > 0 && r3[0] == ',') by {
        reveal_strlit(", \"present\": ");
    }
    assert(r8.len() > 0 && r8[0] == '}') by {
        reveal_strlit("}");
    }
    lemma_number_field_reads_back("{ \"start\": "@, entry.start as nat, r1);
    lemma_number_field_reads_back(", \"length\": "@, entry.length as nat, r2);
    lemma_number_field_reads_back(", \"depth\": "@, 0, r3);
    lemma_bool_field_reads_back(", \"present\": "@, true, r4);
    lemma_bool_field_reads_back(", \"zero\": "@, !entry.data, r5);
    lemma_bool_field_reads_back(", \"data\": "@, entry.data, r6);
    lemma_bool_field_reads_back(", \"compressed\": "@, false, r7);
    lemma_number_field_reads_back(", \"offset\": "@, entry.start as nat, r8);
    lemma_skip_literal("}"@, rest);
    reveal(read_object);
}

/// `objects` says of each entry what it is.
spec fn same_runs(objects: Seq<RunObject>, entries: Seq<MapEntry>) -> bool {
    &&& objects.len() == entries.len()
    &&& forall|i: int|
        0 <= i < entries.len() ==> #[trigger] objects[i] == (RunObject {
            start: entries[i].start as int,
            length: entries[i].length as int,
            depth: 0,
            present: true,
            zero: !entries[i].data,
            data: entries[i].data,
            compressed: false,
            offset: entries[i].start as int,
        })
}

proof fn lemma_same_runs_first(
    object: RunObject,
    others: Seq<RunObject>,
    entries: Seq<MapEntry>,
)
    requires
        entries.len() > 0,
        same_runs(seq![object], seq![entries[0]]),
        same_runs(others, entries.drop_first()),
    ensures
        same_runs(seq![object] + others, entries),
{
    let objects = seq![object] + others;
    assert(seq![object][0] == object && seq![entries[0]][0] == entries[0]);
    assert forall|i: int| 0 <= i < entries.len() implies #[trigger] objects[i] == (RunObject {
        start: entries[i].start as int,
        length: entries[i].length as int,
        depth: 0,
        present: true,
        zero: !entries[i].data,
        data: entries[i].data,
        compressed: false,
        offset: entries[i].start as int,
    }) by {
        if i > 0 {
            assert(objects[i] == others[i - 1]);
            assert(entries.drop_first()[i - 1] == entries[i]);
        }
    }
}

proof fn lemma_read_following_step(front: Seq<char>, object: RunObject, rest: Seq<char>)
    requires
        read_object(front + rest) == Some((object, rest)),
        read_following(rest) is Some,
    ensures
        read_following(",\n"@ + (front + rest)) == Some(seq![object] + read_following(rest)->0),
{
    reveal_strlit(",\n");
    let text = ",\n"@ + (front + rest);
    assert(",\n"@ =~= seq![',', '\n']);
    lemma_skip_literal(",\n"@, front + rest);
    assert(text[0] == ',');
    assert(seq![']', '\n'][0] == ']');
    assert(text != seq![']', '\n']);
}

proof fn lemma_read_map_step(front: Seq<char>, object: RunObject, rest: Seq<char>)
    requires
        front.len() > 0 && front[0] == '{',
        read_object(front + rest) == Some((object, rest)),
        read_following(rest) is Some,
    ensures
        read_map("["@ + (front + rest)) == Some(seq![object] + read_following(rest)->0),
{
    reveal_strlit("[");
    let text = "["@ + (front + rest);
    assert("["@ =~= seq!['[']);
    lemma_skip_literal("["@, front + rest);
    assert(text[1] == '{');
    assert(seq!['[', ']', '\n'][1] == ']');
    assert(text != seq!['[', ']', '\n']);
}

proof fn lemma_following_reads_back(entries: Seq<MapEntry>)
    ensures
        read_following(following_text(entries) + "]\n"@) is Some,
        same_runs(read_following(following_text(entries) + "]\n"@)->0, entries),
    decreases entries.len(),
{
    let end = "]\n"@;
    if entries.len() == 0 {
        reveal_strlit("]\n");
        assert(following_text(entries) + end =~= seq![']', '\n']);
    } else {
        let front = entry_text(entries[0]);
        let following = following_text(entries.drop_first());
        let rest = following + end;
        lemma_regroup(",\n"@, front + following, end);
        lemma_regroup(front, following, end);
        object_reads_back(entries[0], rest);
        let (object, _) = read_object(front + rest)->0;
        lemma_following_reads_back(entries.drop_first());
        lemma_read_following_step(front, object, rest);
        lemma_same_runs_first(object, read_following(rest)->0, entries);
    }
}

/// A reader of the text of a map finds one array with one object for each entry, in order, and
/// each object says what its entry is.
pub proof fn text_reads_back(entries: Seq<MapEntry>)
    ensures
        read_map(map_text(entries)) is Some,
        read_map(map_text(entries))->0.len() == entries.len(),
        forall|i: int|
            0 <= i < entries.len() ==> #[trigger] read_map(map_text(entries))->0[i] == (RunObject {
                start: entries[i].start as int,
                length: entries[i].length as int,
                depth: 0,
                present: true,
                zero: !entries[i].data,
                data: entries[i].data,
                compressed: false,
                offset: entries[i].start as int,
            }),
{
    let end = "]\n"@;
    lemma_regroup("["@, joined_text(entries), end);
    if entries.len() == 0 {
        reveal_strlit("[");
        reveal_strlit("]\n");
        assert(map_text(entries) =~= seq!['[', ']', '\n']);
    } else {
        let front = entry_text(entries[0]);
        let following = following_text(entries.drop_first());
        let rest = following + end;
        lemma_joined_text_from_front(entries);
        lemma_regroup(front, following, end);
        lemma_entry_starts(entries[0]);
        object_reads_back(entries[0], rest);
        let (object, _) = read_object(front + rest)->0;
        lemma_following_reads_back(entries.drop_first());
        lemma_read_map_step(front, object, rest);
        lemma_same_runs_first(object, read_following(rest)->0, entries);
        assert(map_text(entries) == "["@ + (front + rest));
    }
}

/// The text of a map is one array, whatever the number of entries: it opens with a bracket, and
/// closes with a bracket and a line break.
pub proof fn text_is_one_array(entries: Seq<MapEntry>)
    ensures
        map_text(entries).len() >= 3,
        map_text(entries)[0] == '[',
        map_text(entries)[map_text(entries).len() - 2] == ']',
        map_text(entries)[map_text(entries).len() - 1] == '\n',
{
    reveal_strlit("[");
    reveal_strlit("]\n");
}

/// A side-car determines the data extents and the size of the file that it was made for.
pub proof fn sidecar_determines_the_file(
    extents_a: Seq<(u64, u64)>,
    size_a: u64,
    extents_b: Seq<(u64, u64)>,
    size_b: u64,
)
    requires
        well_formed(extents_a),
        within(extents_a, size_a as int),
        well_formed(extents_b),
        within(extents_b, size_b as int),
        map_text(map_entries(extents_a, size_a)) == map_text(map_entries(extents_b, size_b)),
    ensures
        extents_a == extents_b,
        size_a == size_b,
{
    text_determines_entries(map_entries(extents_a, size_a), map_entries(extents_b, size_b));
    map_keeps_the_extents(extents_a, size_a);
    map_keeps_the_extents(extents_b, size_b);
    map_tiles_the_file(extents_a, size_a);
    map_tiles_the_file(extents_b, size_b);
}

/// A reader of the side-car of a file of `size` bytes with these data extents finds runs that are
/// not empty, start at the start of the file, each where the one before it ends, and end at the
/// size. The offset of each is its start, and each is said to be zero exactly if it is not data.
pub proof fn sidecar_describes_the_extents(extents: Seq<(u64, u64)>, size: u64)
    requires
        forall|i: int| 0 <= i < extents.len() ==> (#[trigger] extents[i]).0 < extents[i].1 <= size,
        forall|i: int, j: int|
            0 <= i < j < extents.len() ==> (#[trigger] extents[i]).1 <= (#[trigger] extents[j]).0,
    ensures
        ({
            let sidecar = read_map(map_text(map_entries(extents, size)));
            let objects = sidecar->0;
            &&& sidecar is Some
            &&& objects.len() == 0 <==> size == 0
            &&& objects.len() > 0 ==> objects[0].start == 0 && objects.last().start
                + objects.last().length == size
            &&& forall|i: int, j: int|
                0 <= i && j == i + 1 && j < objects.len() ==> (#[trigger] objects[i]).start
                    + objects[i].length == (#[trigger] objects[j]).start
            &&& forall|i: int|
                0 <= i < objects.len() ==> {
                    &&& (#[trigger] objects[i]).length > 0
                    &&& objects[i].offset == objects[i].start
                    &&& objects[i].zero == !objects[i].data
                    &&& objects[i].depth == 0 && objects[i].present && !objects[i].compressed
                }
        }),
{
    let entries = map_entries(extents, size);
    let objects = read_map(map_text(entries))->0;
    assert(well_formed(extents));
    assert(within(extents, size as int));
    text_reads_back(entries);
    map_tiles_the_file(extents, size);
    map_is_empty_only_for_empty_file(extents, size);
    if objects.len() > 0 {
        assert(objects[0].start == entries[0].start);
        let last = objects.len() - 1;
        assert(objects[last].start + objects[last].length == run_end(entries[last]));
    }
    assert forall|i: int| 0 <= i < objects.len() implies {
        &&& (#[trigger] objects[i]).length > 0
        &&& objects[i].offset == objects[i].start
        &&& objects[i].zero == !objects[i].data
        &&& objects[i].depth == 0 && objects[i].present && !objects[i].compressed
    } by {
        assert(entries[i].length > 0);
    }
    assert forall|i: int, j: int| 0 <= i && j == i + 1 && j < objects.len() implies (
    #[trigger] objects[i]).start + objects[i].length == (#[trigger] objects[j]).start by {
        assert(run_end(entries[i]) == entries[j].start);
    }
}

/// A reader of the side-car finds data said of exactly the bytes that lie in an extent.
pub proof fn sidecar_tells_data_from_holes(
    extents: Seq<(u64, u64)>,
    size: u64,
    i: int,
    byte: int,
)
    requires
        forall|k: int| 0 <= k < extents.len() ==> (#[trigger] extents[k]).0 < extents[k].1 <= size,
        forall|j: int, k: int|
            0 <= j < k < extents.len() ==> (#[trigger] extents[j]).1 <= (#[trigger] extents[k]).0,
        read_map(map_text(map_entries(extents, size))) is Some,
        0 <= i < read_map(map_text(map_entries(extents, size)))->0.len(),
        read_map(map_text(map_entries(extents, size)))->0[i].start <= byte < read_map(
            map_text(map_entries(extents, size)),
        )->0[i].start + read_map(map_text(map_entries(extents, size)))->0[i].length,
    ensures
        read_map(map_text(map_entries(extents, size)))->0[i].data <==> exists|k: int|
            0 <= k < extents.len() && (#[trigger] extents[k]).0 <= byte < extents[k].1,
{
    assert(well_formed(extents));
    assert(within(extents, size as int));
    text_reads_back(map_entries(extents, size));
    assert(run_contains(map_entries(extents, size)[i], byte));
    map_tells_data_from_holes(extents, size, i, byte);
}

/// Whoever reads the entries back from a side-car and takes its data runs for the extents of the
/// file selects exactly the blocks that the map selects that the side-car was made from.
pub proof fn sidecar_selects_the_same_blocks(
    extents: Seq<(u64, u64)>,
    size: u64,
    entries: Seq<MapEntry>,
    offset: u64,
    len: u64,
)
    requires
        well_formed(extents),
        within(extents, size as int),
        map_text(entries) == map_text(map_entries(extents, size)),
    ensures
        data_extents(entries) == extents,
        range_overlaps(data_extents(entries), offset as int, len as int) == range_overlaps(
            extents,
            offset as int,
            len as int,
        ),
{
    text_determines_entries(entries, map_entries(extents, size));
    map_keeps_the_extents(extents, size);
}

proof fn lemma_entry_text_is_ascii(entry: MapEntry)
    ensures
        is_ascii_chars(entry_text(entry)),
{
    reveal_strlit("{ \"start\": ");
    reveal_strlit(", \"length\": ");
    reveal_strlit(", \"depth\": 0, \"present\": true, \"zero\": ");
    reveal_strlit(", \"data\": ");
    reveal_strlit(", \"compressed\": false, \"offset\": ");
    reveal_strlit("}");
    reveal_strlit("true");
    reveal_strlit("false");
    decimal_is_digits(entry.start as nat);
    decimal_is_digits(entry.length as nat);
    assert(is_ascii_chars("{ \"start\": "@));
    assert(is_ascii_chars(", \"length\": "@));
    assert(is_ascii_chars(", \"depth\": 0, \"present\": true, \"zero\": "@));
    assert(is_ascii_chars(", \"data\": "@));
    assert(is_ascii_chars(", \"compressed\": false, \"offset\": "@));
}

proof fn lemma_joined_text_is_ascii(entries: Seq<MapEntry>)
    ensures
        is_ascii_chars(joined_text(entries)),
    decreases entries.len(),
{
    if entries.len() == 1 {
        lemma_entry_text_is_ascii(entries[0]);
    } else if entries.len() > 1 {
        reveal_strlit(",\n");
        lemma_joined_text_is_ascii(entries.drop_last());
        lemma_entry_text_is_ascii(entries.last());
    }
}

/// The text of a map is plain ASCII: its bytes are its characters, one for one.
pub proof fn text_is_ascii(entries: Seq<MapEntry>)
    ensures
        is_ascii_chars(map_text(entries)),
        encode_utf8(map_text(entries)) == Seq::new(
            map_text(entries).len(),
            |i: int| map_text(entries)[i] as u8,
        ),
{
    reveal_strlit("[");
    reveal_strlit("]\n");
    lemma_joined_text_is_ascii(entries);
    is_ascii_chars_encode_utf8(map_text(entries));
}

} // verus!
