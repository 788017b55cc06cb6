//! The text of a value: compact JSON, objects entry by entry in their order.

use crate::decimal::{decimal_text, int128_to_string};
use crate::strings::chars_of;
use crate::value::{entries_of, lemma_view_object, lemma_view_sequence, nodes_of, Node, Value};
use vstd::prelude::*;

verus! {

/// `String::push` appends the character to the end of the string.
pub assume_specification[ std::string::String::push ](s: &mut std::string::String, ch: char)
    ensures
        final(s)@ == old(s)@.push(ch),
;

/// The upper-case hexadecimal digit for a number below sixteen.
pub open spec fn hex_digit(d: int) -> char {
    if d <= 9 {
        (48 + d) as char
    } else {
        (55 + d) as char
    }
}

/// How one character stands inside a quoted text: `"` and `\` after a `\`,
/// the control characters by their short names or as `\u00` and two
/// hexadecimal digits, every other character as itself.
pub open spec fn escaped_char(c: char) -> Seq<char> {
    if c == '"' {
        seq!['\\', '"']
    } else if c == '\\' {
        seq!['\\', '\\']
    } else if c as int == 8 {
        seq!['\\', 'b']
    } else if c as int == 9 {
        seq!['\\', 't']
    } else if c as int == 10 {
        seq!['\\', 'n']
    } else if c as int == 12 {
        seq!['\\', 'f']
    } else if c as int == 13 {
        seq!['\\', 'r']
    } else if (c as int) < 32 {
        seq!['\\', 'u', '0', '0', hex_digit(c as int / 16), hex_digit(c as int % 16)]
    } else {
        seq![c]
    }
}

/// A text with each character escaped.
pub open spec fn escaped(s: Seq<char>) -> Seq<char>
    decreases s.len(),
{
    if s.len() == 0 {
        Seq::empty()
    } else {
        escaped(s.drop_last()) + escaped_char(s.last())
    }
}

/// A text between double quotes, escaped.
pub open spec fn quoted(s: Seq<char>) -> Seq<char> {
    seq!['"'] + escaped(s) + seq!['"']
}

/// The compact JSON text of a value.
pub open spec fn json_text(n: Node) -> Seq<char>
    decreases n,
{
    match n {
        Node::Null => seq!['n', 'u', 'l', 'l'],
        Node::Bool(b) => if b {
            seq!['t', 'r', 'u', 'e']
        } else {
            seq!['f', 'a', 'l', 's', 'e']
        },
        Node::Integer(i) => decimal_text(i),
        Node::String(s) => quoted(s),
        Node::Sequence(items) => seq!['['] + items_text(items) + seq![']'],
        Node::Object(entries) => seq!['{'] + entries_text(entries) + seq!['}'],
    }
}

/// The texts of the items of a sequence, with a comma between two.
pub open spec fn items_text(items: Seq<Node>) -> Seq<char>
    decreases items,
{
    if items.len() == 0 {
        Seq::empty()
    } else if items.len() == 1 {
        json_text(items[0])
    } else {
        items_text(items.drop_last()) + seq![','] + json_text(items.last())
    }
}

/// The texts of the entries of an object, each as its quoted key, a colon
/// and its value, with a comma between two.
pub open spec fn entries_text(entries: Seq<(Seq<char>, Node)>) -> Seq<char>
    decreases entries,
{
    if entries.len() == 0 {
        Seq::empty()
    } else if entries.len() == 1 {
        quoted(entries[0].0) + seq![':'] + json_text(entries[0].1)
    } else {
        entries_text(entries.drop_last()) + seq![','] + quoted(entries.last().0) + seq![':']
            + json_text(entries.last().1)
    }
}

/// The text by which a value is compared: a text as it is, anything else as
/// JSON.
pub open spec fn text_of(n: Node) -> Seq<char> {
    match n {
        Node::String(s) => s,
        _ => json_text(n),
    }
}

/// The hexadecimal digit for a number below sixteen.
fn hex_char(d: u32) -> (r: char)
    requires
        d < 16,
    ensures
        r == hex_digit(d as int),
{
    if d == 0 {
        '0'
    } else if d == 1 {
        '1'
    } else if d == 2 {
        '2'
    } else if d == 3 {
        '3'
    } else if d == 4 {
        '4'
    } else if d == 5 {
        '5'
    } else if d == 6 {
        '6'
    } else if d == 7 {
        '7'
    } else if d == 8 {
        '8'
    } else if d == 9 {
        '9'
    } else if d == 10 {
        'A'
    } else if d == 11 {
        'B'
    } else if d == 12 {
        'C'
    } else if d == 13 {
        'D'
    } else if d == 14 {
        'E'
    } else {
        'F'
    }
}

/// Appends one character, escaped.
fn write_char(out: &mut String, c: char)
    ensures
        final(out)@ == old(out)@ + escaped_char(c),
{
    let code: u32 = c as u32;
    if c == '"' || c == '\\' {
        out.push('\\');
        out.push(c);
    } else if code == 8 {
        out.push('\\');
        out.push('b');
    } else if code == 9 {
        out.push('\\');
        out.push('t');
    } else if code == 10 {
        out.push('\\');
        out.push('n');
    } else if code == 12 {
        out.push('\\');
        out.push('f');
    } else if code == 13 {
        out.push('\\');
        out.push('r');
    } else if code < 32 {
        out.push('\\');
        out.push('u');
        out.push('0');
        out.push('0');
        out.push(hex_char(code / 16));
        out.push(hex_char(code % 16));
    } else {
        out.push(c);
    }
    assert(out@ =~= old(out)@ + escaped_char(c));
}

/// Appends a text between double quotes, escaped.
fn write_quoted(out: &mut String, s: &str)
    ensures
        final(out)@ == old(out)@ + quoted(s@),
{
    let cs: Vec<char> = chars_of(s);
    out.push('"');
    let mut i: usize = 0;
    assert(cs@.take(0) =~= Seq::<char>::empty());
    while i < cs.len()
        invariant
            i <= cs.len(),
            out@ == old(out)@ + seq!['"'] + escaped(cs@.take(i as int)),
        decreases cs.len() - i,
    {
        write_char(out, cs[i]);
        proof {
            let next = cs@.take(i + 1);
            assert(next.drop_last() =~= cs@.take(i as int));
            assert(out@ =~= old(out)@ + seq!['"'] + escaped(next));
        }
        i = i + 1;
    }
    out.push('"');
    assert(cs@.take(cs.len() as int) =~= cs@);
    assert(out@ =~= old(out)@ + quoted(s@));
}

/// Appends the JSON text of a value.
fn write_value(out: &mut String, v: &Value)
    ensures
        final(out)@ == old(out)@ + json_text(v@),
    decreases v, 1nat,
{
    match v {
        Value::Null => {
            out.push('n');
            out.push('u');
            out.push('l');
            out.push('l');
            assert(out@ =~= old(out)@ + json_text(v@));
        },
        Value::Bool(b) => {
            if *b {
                out.push('t');
                out.push('r');
                out.push('u');
                out.push('e');
            } else {
                out.push('f');
                out.push('a');
                out.push('l');
                out.push('s');
                out.push('e');
            }
            assert(out@ =~= old(out)@ + json_text(v@));
        },
        Value::Integer(i) => {
            let digits: String = int128_to_string(*i);
            out.append(digits.as_str());
        },
        Value::String(s) => {
            write_quoted(out, s.as_str());
        },
        Value::Sequence(items) => {
            out.push('[');
            write_items(out, items);
            out.push(']');
            proof {
                lemma_view_sequence(*items);
                assert(out@ =~= old(out)@ + json_text(v@));
            }
        },
        Value::Object(entries) => {
            out.push('{');
            write_entries(out, entries);
            out.push('}');
            proof {
                lemma_view_object(*entries);
                assert(out@ =~= old(out)@ + json_text(v@));
            }
        },
    }
}

/// Appends the texts of the items of a sequence.
fn write_items(out: &mut String, items: &Vec<Value>)
    ensures
        final(out)@ == old(out)@ + items_text(nodes_of(items@)),
    decreases items, 0nat,
{
    let ghost all = nodes_of(items@);
    let mut i: usize = 0;
    assert(all.take(0) =~= Seq::<Node>::empty());
    assert(out@ =~= old(out)@ + items_text(all.take(0)));
    while i < items.len()
        invariant
            i <= items.len(),
            all == nodes_of(items@),
            out@ == old(out)@ + items_text(all.take(i as int)),
        decreases items.len() - i,
    {
        let ghost before = out@;
        if i > 0 {
            out.push(',');
        }
        write_value(out, &items[i]);
        proof {
            let next = all.take(i + 1);
            assert(next.drop_last() =~= all.take(i as int));
            assert(next.last() == items@[i as int]@);
            if i == 0 {
                assert(items_text(all.take(0)) =~= Seq::<char>::empty());
            }
            assert(out@ =~= old(out)@ + items_text(next));
        }
        i = i + 1;
    }
    assert(all.take(items.len() as int) =~= all);
}

/// Appends the texts of the entries of an object.
fn write_entries(out: &mut String, entries: &Vec<(String, Value)>)
    ensures
        final(out)@ == old(out)@ + entries_text(entries_of(entries@)),
    decreases entries, 0nat,
{
    let ghost all = entries_of(entries@);
    let mut i: usize = 0;
    assert(all.take(0) =~= Seq::<(Seq<char>, Node)>::empty());
    assert(out@ =~= old(out)@ + entries_text(all.take(0)));
    while i < entries.len()
        invariant
            i <= entries.len(),
            all == entries_of(entries@),
            out@ == old(out)@ + entries_text(all.take(i as int)),
        decreases entries.len() - i,
    {
        if i > 0 {
            out.push(',');
        }
        write_quoted(out, entries[i].0.as_str());
        out.push(':');
        write_value(out, &entries[i].1);
        proof {
            let next = all.take(i + 1);
            assert(next.drop_last() =~= all.take(i as int));
            assert(next.last() == (entries@[i as int].0@, entries@[i as int].1@));
            if i == 0 {
                assert(entries_text(all.take(0)) =~= Seq::<char>::empty());
            }
            assert(out@ =~= old(out)@ + entries_text(next));
        }
        i = i + 1;
    }
    assert(all.take(entries.len() as int) =~= all);
}

impl Value {
    /// The compact JSON text of the value.
    pub fn to_json_string(&self) -> (r: String)
        ensures
            r@ == json_text(self@),
    {
        let mut out: String = String::new();
        write_value(&mut out, self);
        assert(out@ =~= json_text(self@));
        out
    }

    /// The text by which the value is compared: a text as it is, anything
    /// else as JSON.
    pub fn to_text(&self) -> (r: String)
        ensures
            r@ == text_of(self@),
    {
        match self {
            Value::String(s) => s.clone(),
            _ => self.to_json_string(),
        }
    }
}

} // verus!
