//! Rendering of the output artifact.
//!
//! The database is one JSON array; each element is an object with the
//! fields `directory`, `command` and `file`, where `command` is the
//! command sequence joined by single spaces with no shell escaping.
//! String values are escaped as JSON demands: quote, backslash, and every
//! control character.

use vstd::prelude::*;
use vstd::string::{StrSliceExecFns, StringExecFns};

verus! {

/// The elements joined by a single separator character.
pub open spec fn spec_join_sep(v: Seq<Seq<char>>, sep: char) -> Seq<char>
    decreases v.len(),
{
    if v.len() == 0 {
        Seq::empty()
    } else if v.len() == 1 {
        v[0]
    } else {
        v[0] + seq![sep] + spec_join_sep(v.drop_first(), sep)
    }
}

/// The space-joined command text.
pub open spec fn spec_join_space(v: Seq<Seq<char>>) -> Seq<char> {
    spec_join_sep(v, ' ')
}

proof fn lemma_join_sep_push(v: Seq<Seq<char>>, x: Seq<char>, sep: char)
    ensures
        spec_join_sep(v.push(x), sep) == if v.len() == 0 {
            x
        } else {
            spec_join_sep(v, sep) + seq![sep] + x
        },
    decreases v.len(),
{
    reveal_with_fuel(spec_join_sep, 3);
    if v.len() == 0 {
        assert(v.push(x)[0] == x);
        assert(spec_join_sep(v.push(x), sep) == x);
    } else {
        assert(v.push(x)[0] == v[0]);
        assert(v.push(x).drop_first() =~= v.drop_first().push(x));
        lemma_join_sep_push(v.drop_first(), x, sep);
        if v.len() == 1 {
            assert(v.drop_first().len() == 0);
            assert(spec_join_sep(v.push(x), sep) =~= spec_join_sep(v, sep) + seq![sep] + x);
        } else {
            assert(spec_join_sep(v.push(x), sep) =~= spec_join_sep(v, sep) + seq![sep] + x);
        }
    }
}

fn join_with(parts: &Vec<String>, sep: &str) -> (r: String)
    requires
        sep@.len() == 1,
    ensures
        r@ == spec_join_sep(parts.deep_view(), sep@[0]),
{
    let ghost dv = parts.deep_view();
    let ghost sc = sep@[0];
    proof {
        assert(dv.len() == parts@.len());
        assert(sep@ =~= seq![sc]);
    }
    let mut acc = String::new();
    let n = parts.len();
    let mut i: usize = 0;
    while i < n
        invariant
            i <= n,
            n == parts@.len(),
            dv == parts.deep_view(),
            dv.len() == n,
            sep@ =~= seq![sc],
            acc@ == spec_join_sep(dv.take(i as int), sc),
        decreases n - i,
    {
        proof {
            assert(dv[i as int] == parts@[i as int]@);
        }
        if i > 0 {
            acc.append(sep);
        }
        acc.append((&parts[i]).as_str());
        proof {
            lemma_join_sep_push(dv.take(i as int), dv[i as int], sc);
            assert(dv.take(i as int).push(dv[i as int]) =~= dv.take(i as int + 1));
            if i > 0 {
                assert(acc@ =~= spec_join_sep(dv.take(i as int + 1), sc));
            }
        }
        i += 1;
    }
    proof {
        assert(dv.take(n as int) =~= dv);
    }
    acc
}

/// Joins the command sequence into one space-separated text, exactly the
/// elements in order with one space between each pair.
pub fn join_space(parts: &Vec<String>) -> (r: String)
    ensures
        r@ == spec_join_space(parts.deep_view()),
{
    proof {
        reveal_strlit(" ");
        assert(" "@.len() == 1);
        assert(" "@[0] == ' ');
    }
    join_with(parts, " ")
}

/// A hexadecimal digit.
pub open spec fn hex_digit(n: u32) -> char {
    if n == 0 {
        '0'
    } else if n == 1 {
        '1'
    } else if n == 2 {
        '2'
    } else if n == 3 {
        '3'
    } else if n == 4 {
        '4'
    } else if n == 5 {
        '5'
    } else if n == 6 {
        '6'
    } else if n == 7 {
        '7'
    } else if n == 8 {
        '8'
    } else if n == 9 {
        '9'
    } else if n == 10 {
        'a'
    } else if n == 11 {
        'b'
    } else if n == 12 {
        'c'
    } else if n == 13 {
        'd'
    } else if n == 14 {
        'e'
    } else {
        'f'
    }
}

/// How one character is written inside a JSON string: quote and backslash
/// behind a backslash, the named control escapes, other control characters
/// as `\u00..`, everything else as itself.
pub open spec fn json_escape_char(c: char) -> Seq<char> {
    if c == '"' {
        seq!['\\', '"']
    } else if c == '\\' {
        seq!['\\', '\\']
    } else if c == '\n' {
        seq!['\\', 'n']
    } else if c == '\r' {
        seq!['\\', 'r']
    } else if c == '\t' {
        seq!['\\', 't']
    } else if (c as u32) < 32 {
        seq!['\\', 'u', '0', '0', hex_digit((c as u32) / 16), hex_digit((c as u32) % 16)]
    } else {
        seq![c]
    }
}

/// A whole string's characters, each written as JSON demands.
pub open spec fn json_escaped(s: Seq<char>) -> Seq<char>
    decreases s.len(),
{
    if s.len() == 0 {
        Seq::empty()
    } else {
        json_escape_char(s[0]) + json_escaped(s.drop_first())
    }
}

proof fn lemma_json_escaped_push(v: Seq<char>, x: char)
    ensures
        json_escaped(v.push(x)) == json_escaped(v) + json_escape_char(x),
    decreases v.len(),
{
    reveal_with_fuel(json_escaped, 3);
    if v.len() == 0 {
        assert(v.push(x)[0] == x);
        assert(v.push(x).drop_first() =~= Seq::<char>::empty());
        assert(json_escaped(v.push(x)) =~= json_escaped(v) + json_escape_char(x));
    } else {
        assert(v.push(x)[0] == v[0]);
        assert(v.push(x).drop_first() =~= v.drop_first().push(x));
        lemma_json_escaped_push(v.drop_first(), x);
        assert(json_escaped(v.push(x)) =~= json_escaped(v) + json_escape_char(x));
    }
}

fn hex_str<'a>(n: u32) -> (r: &'a str)
    requires
        n < 16,
    ensures
        r@ == seq![hex_digit(n)],
{
    proof {
        reveal_strlit("0");
        reveal_strlit("1");
        reveal_strlit("2");
        reveal_strlit("3");
        reveal_strlit("4");
        reveal_strlit("5");
        reveal_strlit("6");
        reveal_strlit("7");
        reveal_strlit("8");
        reveal_strlit("9");
        reveal_strlit("a");
        reveal_strlit("b");
        reveal_strlit("c");
        reveal_strlit("d");
        reveal_strlit("e");
        reveal_strlit("f");
    }
    let r: &'a str = if n == 0 {
        "0"
    } else if n == 1 {
        "1"
    } else if n == 2 {
        "2"
    } else if n == 3 {
        "3"
    } else if n == 4 {
        "4"
    } else if n == 5 {
        "5"
    } else if n == 6 {
        "6"
    } else if n == 7 {
        "7"
    } else if n == 8 {
        "8"
    } else if n == 9 {
        "9"
    } else if n == 10 {
        "a"
    } else if n == 11 {
        "b"
    } else if n == 12 {
        "c"
    } else if n == 13 {
        "d"
    } else if n == 14 {
        "e"
    } else {
        "f"
    };
    proof {
        assert(r@ =~= seq![hex_digit(n)]);
    }
    r
}

#[verifier::loop_isolation(false)]
fn append_escaped(acc: &mut String, s: &str)
    ensures
        final(acc)@ == old(acc)@ + json_escaped(s@),
{
    proof {
        reveal_strlit("\\\"");
        reveal_strlit("\\\\");
        reveal_strlit("\\n");
        reveal_strlit("\\r");
        reveal_strlit("\\t");
        reveal_strlit("\\u00");
        assert(s@.take(0) =~= Seq::<char>::empty());
        assert(old(acc)@ + json_escaped(s@.take(0)) =~= old(acc)@);
    }
    let n = s.unicode_len();
    let mut i: usize = 0;
    while i < n
        invariant
            i <= n,
            n == s@.len(),
            acc@ == old(acc)@ + json_escaped(s@.take(i as int)),
        decreases n - i,
    {
        let c = s.get_char(i);
        if c == '"' {
            acc.append("\\\"");
            proof {
                assert(("\\\"")@ =~= json_escape_char(c));
            }
        } else if c == '\\' {
            acc.append("\\\\");
            proof {
                assert(("\\\\")@ =~= json_escape_char(c));
            }
        } else if c == '\n' {
            acc.append("\\n");
            proof {
                assert(("\\n")@ =~= json_escape_char(c));
            }
        } else if c == '\r' {
            acc.append("\\r");
            proof {
                assert(("\\r")@ =~= json_escape_char(c));
            }
        } else if c == '\t' {
            acc.append("\\t");
            proof {
                assert(("\\t")@ =~= json_escape_char(c));
            }
        } else if (c as u32) < 32 {
            acc.append("\\u00");
            let code = c as u32;
            let hi = code / 16;
            let lo = code % 16;
            acc.append(hex_str(hi));
            acc.append(hex_str(lo));
            proof {
                assert(("\\u00")@ + seq![hex_digit((c as u32) / 16)] + seq![
                    hex_digit((c as u32) % 16),
                ] =~= json_escape_char(c));
            }
        } else {
            let t = s.substring_char(i, i + 1);
            acc.append(t);
            proof {
                assert(t@ =~= json_escape_char(c));
            }
        }
        proof {
            lemma_json_escaped_push(s@.take(i as int), s@[i as int]);
            assert(s@.take(i as int).push(s@[i as int]) =~= s@.take(i as int + 1));
            assert(acc@ =~= old(acc)@ + json_escaped(s@.take(i as int + 1)));
        }
        i += 1;
    }
    proof {
        assert(s@.take(n as int) =~= s@);
    }
}

/// One output record.
pub open spec fn spec_entry_json(dir: Seq<char>, cmd: Seq<char>, file: Seq<char>) -> Seq<char> {
    "{\"directory\":\""@ + json_escaped(dir) + "\",\"command\":\""@ + json_escaped(cmd)
        + "\",\"file\":\""@ + json_escaped(file) + "\"}"@
}

/// Renders one output record: a JSON object with the directory, the
/// space-joined command text, and the matched file, in that order, every
/// value escaped as JSON demands.
pub fn render_entry(directory: &str, command: &str, file: &str) -> (r: String)
    ensures
        r@ == spec_entry_json(directory@, command@, file@),
{
    let mut acc = String::new();
    acc.append("{\"directory\":\"");
    append_escaped(&mut acc, directory);
    acc.append("\",\"command\":\"");
    append_escaped(&mut acc, command);
    acc.append("\",\"file\":\"");
    append_escaped(&mut acc, file);
    acc.append("\"}");
    proof {
        assert(acc@ =~= spec_entry_json(directory@, command@, file@));
    }
    acc
}

/// The whole database: the rendered records as one JSON array.
pub open spec fn spec_database_json(entries: Seq<Seq<char>>) -> Seq<char> {
    "["@ + spec_join_sep(entries, ',') + "]"@
}

/// Renders the whole database from already rendered records: one array,
/// the records in order, a comma between each pair, closed at the end.
pub fn render_database(entries: &Vec<String>) -> (r: String)
    ensures
        r@ == spec_database_json(entries.deep_view()),
{
    proof {
        reveal_strlit(",");
        assert(","@.len() == 1);
        assert(","@[0] == ',');
    }
    let mut acc = String::new();
    acc.append("[");
    let body = join_with(entries, ",");
    acc.append(body.as_str());
    acc.append("]");
    proof {
        assert(acc@ =~= spec_database_json(entries.deep_view()));
    }
    acc
}

} // verus!
