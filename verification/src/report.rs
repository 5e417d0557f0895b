//! Rendering the final report as one line of JSON: an object mapping each
//! observed path to its count, in the order the entries stand.

use vstd::prelude::*;

verus! {

/// Relies on the standard library's `String::push`: it appends the given
/// character to the end of the string.
pub assume_specification[ String::push ](s: &mut String, c: char)
    ensures
        final(s)@ == old(s)@.push(c),
;

/// The decimal digit characters, low digit values first.
pub open spec fn dec_digit(d: int) -> char {
    if d == 0 {
        '0'
    } else if d == 1 {
        '1'
    } else if d == 2 {
        '2'
    } else if d == 3 {
        '3'
    } else if d == 4 {
        '4'
    } else if d == 5 {
        '5'
    } else if d == 6 {
        '6'
    } else if d == 7 {
        '7'
    } else if d == 8 {
        '8'
    } else {
        '9'
    }
}

/// The decimal rendering of a non-negative integer.
pub open spec fn dec_of(n: int) -> Seq<char>
    decreases n,
{
    if n < 10 {
        seq![dec_digit(n)]
    } else {
        dec_of(n / 10) + seq![dec_digit(n % 10)]
    }
}

/// The hexadecimal digit characters, low digit values first.
pub open spec fn hex_digit(d: int) -> char {
    if d < 10 {
        dec_digit(d)
    } else if d == 10 {
        'a'
    } else if d == 11 {
        'b'
    } else if d == 12 {
        'c'
    } else if d == 13 {
        'd'
    } else if d == 14 {
        'e'
    } else {
        'f'
    }
}

/// The JSON escape of one character: quotes and backslashes take a
/// backslash, control characters take the four-digit escape, every other
/// character stands as itself.
pub open spec fn esc_char(c: char) -> Seq<char> {
    if c == '"' {
        seq!['\\', '"']
    } else if c == '\\' {
        seq!['\\', '\\']
    } else if (c as u32) < 0x20 {
        seq!['\\', 'u', '0', '0', hex_digit(c as u32 as int / 16), hex_digit(c as u32 as int % 16)]
    } else {
        seq![c]
    }
}

/// The JSON escape of a whole string.
pub open spec fn esc(s: Seq<char>) -> Seq<char>
    decreases s.len(),
{
    if s.len() == 0 {
        Seq::empty()
    } else {
        esc(s.subrange(0, s.len() - 1)) + esc_char(s[s.len() - 1])
    }
}

/// One report entry as JSON: the quoted, escaped path, a colon, the count.
pub open spec fn item_of(e: (Seq<char>, u64)) -> Seq<char> {
    seq!['"'] + esc(e.0) + seq!['"', ':'] + dec_of(e.1 as int)
}

/// The comma-joined entries.
pub open spec fn items_of(es: Seq<(Seq<char>, u64)>) -> Seq<char>
    decreases es.len(),
{
    if es.len() == 0 {
        Seq::empty()
    } else if es.len() == 1 {
        item_of(es[0])
    } else {
        items_of(es.subrange(0, es.len() - 1)) + seq![','] + item_of(es[es.len() - 1])
    }
}

/// The whole report as one JSON object.
pub open spec fn json_of(es: Seq<(Seq<char>, u64)>) -> Seq<char> {
    seq!['{'] + items_of(es) + seq!['}']
}

/// The model of a concrete entry list.
pub open spec fn entries_view(es: Seq<(String, u64)>) -> Seq<(Seq<char>, u64)> {
    es.map_values(|e: (String, u64)| (e.0@, e.1))
}

fn digit_char(d: u64) -> (c: char)
    requires
        d < 10,
    ensures
        c == dec_digit(d as int),
{
    match d {
        0 => '0',
        1 => '1',
        2 => '2',
        3 => '3',
        4 => '4',
        5 => '5',
        6 => '6',
        7 => '7',
        8 => '8',
        _ => '9',
    }
}

fn hex_char(d: u32) -> (c: char)
    requires
        d < 16,
    ensures
        c == hex_digit(d as int),
{
    match d {
        0 => '0',
        1 => '1',
        2 => '2',
        3 => '3',
        4 => '4',
        5 => '5',
        6 => '6',
        7 => '7',
        8 => '8',
        9 => '9',
        10 => 'a',
        11 => 'b',
        12 => 'c',
        13 => 'd',
        14 => 'e',
        _ => 'f',
    }
}

fn push_dec(out: &mut String, n: u64)
    ensures
        final(out)@ == old(out)@ + dec_of(n as int),
    decreases n,
{
    if n >= 10 {
        push_dec(out, n / 10);
    }
    out.push(digit_char(n % 10));
    proof {
        if n < 10 {
            assert(old(out)@.push(dec_digit(n as int)) =~= old(out)@ + dec_of(n as int));
        } else {
            assert((old(out)@ + dec_of(n as int / 10)).push(dec_digit(n as int % 10)) =~= old(
                out,
            )@ + dec_of(n as int));
        }
    }
}

fn push_escaped(out: &mut String, s: &String)
    ensures
        final(out)@ == old(out)@ + esc(s@),
{
    let slice = s.as_str();
    let n = slice.unicode_len();
    let mut i: usize = 0;
    proof {
        assert(esc(s@.subrange(0, 0)) =~= Seq::<char>::empty());
        assert(out@ + Seq::<char>::empty() =~= out@);
    }
    while i < n
        invariant
            i <= n,
            n == s@.len(),
            slice@ == s@,
            out@ == old(out)@ + esc(s@.subrange(0, i as int)),
        decreases n - i,
    {
        let c = slice.get_char(i);
        if c == '"' {
            out.push('\\');
            out.push('"');
        } else if c == '\\' {
            out.push('\\');
            out.push('\\');
        } else {
            let u = c as u32;
            if u < 0x20 {
                out.push('\\');
                out.push('u');
                out.push('0');
                out.push('0');
                out.push(hex_char(u / 16));
                out.push(hex_char(u % 16));
            } else {
                out.push(c);
            }
        }
        proof {
            let pre = s@.subrange(0, i as int);
            let cur = s@.subrange(0, i + 1);
            assert(cur.subrange(0, cur.len() - 1) =~= pre);
            assert(cur[cur.len() - 1] == s@[i as int]);
            assert(esc(cur) == esc(pre) + esc_char(s@[i as int]));
            assert(out@ =~= old(out)@ + esc(cur));
        }
        i = i + 1;
    }
    proof {
        assert(s@.subrange(0, n as int) =~= s@);
    }
}

proof fn lemma_items_push(es: Seq<(Seq<char>, u64)>, e: (Seq<char>, u64))
    ensures
        items_of(es.push(e)) == if es.len() == 0 {
            item_of(e)
        } else {
            items_of(es) + seq![','] + item_of(e)
        },
{
    let es2 = es.push(e);
    assert(es2[es2.len() - 1] == e);
    if es.len() == 0 {
        assert(es2.len() == 1);
    } else {
        assert(es2.subrange(0, es2.len() - 1) =~= es);
    }
}

/// Renders the report entries as one JSON object line: each path quoted and
/// escaped, each count in decimal, entries in their given order.
pub fn render_report(entries: &Vec<(String, u64)>) -> (s: String)
    ensures
        s@ == json_of(entries_view(entries@)),
{
    let ghost ev = entries_view(entries@);
    let mut out = String::new();
    out.push('{');
    proof {
        assert(ev.subrange(0, 0) =~= Seq::<(Seq<char>, u64)>::empty());
        assert(out@ =~= seq!['{'] + items_of(ev.subrange(0, 0)));
    }
    let n = entries.len();
    let mut i: usize = 0;
    while i < n
        invariant
            i <= n,
            n == entries@.len(),
            ev == entries_view(entries@),
            out@ == seq!['{'] + items_of(ev.subrange(0, i as int)),
        decreases n - i,
    {
        if i > 0 {
            out.push(',');
        }
        out.push('"');
        push_escaped(&mut out, &entries[i].0);
        out.push('"');
        out.push(':');
        push_dec(&mut out, entries[i].1);
        proof {
            let pre = ev.subrange(0, i as int);
            let cur = ev.subrange(0, i + 1);
            assert(ev[i as int] == (entries@[i as int].0@, entries@[i as int].1));
            assert(cur =~= pre.push(ev[i as int]));
            lemma_items_push(pre, ev[i as int]);
            assert(item_of(ev[i as int]) =~= seq!['"'] + esc(entries@[i as int].0@) + seq![
                '"',
                ':',
            ] + dec_of(entries@[i as int].1 as int));
            if i == 0 {
                assert(out@ =~= seq!['{'] + items_of(cur));
            } else {
                assert(out@ =~= seq!['{'] + items_of(cur));
            }
        }
        i = i + 1;
    }
    proof {
        assert(ev.subrange(0, n as int) =~= ev);
    }
    out.push('}');
    proof {
        assert(out@ =~= json_of(ev));
    }
    out
}

} // verus!
