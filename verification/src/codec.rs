//! The persistent text encoding of a task list.
//!
//! A list is stored as one line of text: a bracketed, comma-separated list of
//! records, each record holding the description between quotes (with a
//! two-character escape for the few characters that cannot appear bare) and
//! the completion flag as `true` or `false`:
//!
//! `[{"description":"buy milk","done":false}]`
//!
//! [`enc_tasks`] is the one mathematical definition of the format.
//! [`encode_tasks`] produces exactly that encoding, and [`decode_tasks`]
//! accepts exactly the encodings: decoding recovers precisely the list that
//! was encoded (the round trip is part of the two contracts), and any other
//! text is rejected.

use vstd::prelude::*;
use vstd::string::StrSliceExecFns;
use vstd::string::StringExecFns;
use crate::task::{Task, TaskView};
use crate::text::{
    starts_with, lemma_starts_with_parts, lemma_starts_with_subrange, lemma_starts_with_index,
    push_char, chars_of,
};

verus! {

/// Characters that the encoding writes as a two-character escape.
pub open spec fn is_escaped(c: char) -> bool {
    c == '"' || c == '\\' || c == '\n' || c == '\t' || c == '\r' || c == '\u{8}' || c == '\u{c}'
}

/// The code character standing for an escaped character.
pub open spec fn code_of(c: char) -> char {
    if c == '\n' {
        'n'
    } else if c == '\t' {
        't'
    } else if c == '\r' {
        'r'
    } else if c == '\u{8}' {
        'b'
    } else if c == '\u{c}' {
        'f'
    } else {
        c
    }
}

/// The character an escape code stands for, if the code is valid.
pub open spec fn char_of_code(e: char) -> Option<char> {
    if e == '"' {
        Some('"')
    } else if e == '\\' {
        Some('\\')
    } else if e == 'n' {
        Some('\n')
    } else if e == 't' {
        Some('\t')
    } else if e == 'r' {
        Some('\r')
    } else if e == 'b' {
        Some('\u{8}')
    } else if e == 'f' {
        Some('\u{c}')
    } else {
        None
    }
}

/// How one description character appears in the encoding.
pub open spec fn enc_char(c: char) -> Seq<char> {
    if is_escaped(c) {
        seq!['\\', code_of(c)]
    } else {
        seq![c]
    }
}

/// How a whole description appears between its quotes.
pub open spec fn enc_text(s: Seq<char>) -> Seq<char>
    decreases s.len(),
{
    if s.len() == 0 {
        Seq::empty()
    } else {
        enc_char(s[0]) + enc_text(s.drop_first())
    }
}

/// The completion flag as text.
pub open spec fn bool_str(b: bool) -> Seq<char> {
    if b {
        "true"@
    } else {
        "false"@
    }
}

/// The encoding of one task record.
pub open spec fn enc_task(t: TaskView) -> Seq<char> {
    "{\"description\":\""@ + enc_text(t.description) + "\",\"done\":"@ + bool_str(t.done) + "}"@
}

/// The encodings of the tasks in order, separated by commas.
pub open spec fn enc_list(ts: Seq<TaskView>) -> Seq<char>
    decreases ts.len(),
{
    if ts.len() == 0 {
        Seq::empty()
    } else if ts.len() == 1 {
        enc_task(ts[0])
    } else {
        enc_task(ts[0]) + ","@ + enc_list(ts.drop_first())
    }
}

/// The encoding of a whole task list.
pub open spec fn enc_tasks(ts: Seq<TaskView>) -> Seq<char> {
    "["@ + enc_list(ts) + "]"@
}

/// The characters behind each string literal of the format.
proof fn lemma_literal_views()
    ensures
        "["@ == seq!['['],
        "]"@ == seq![']'],
        ","@ == seq![','],
        "}"@ == seq!['}'],
        "true"@ == seq!['t', 'r', 'u', 'e'],
        "false"@ == seq!['f', 'a', 'l', 's', 'e'],
        "{\"description\":\""@ == seq![
            '{', '"', 'd', 'e', 's', 'c', 'r', 'i', 'p', 't', 'i', 'o', 'n', '"', ':', '"',
        ],
        ",\"done\":"@ == seq![',', '"', 'd', 'o', 'n', 'e', '"', ':'],
        "\",\"done\":"@ == seq!['"', ',', '"', 'd', 'o', 'n', 'e', '"', ':'],
{
    reveal_strlit("[");
    reveal_strlit("]");
    reveal_strlit(",");
    reveal_strlit("}");
    reveal_strlit("true");
    reveal_strlit("false");
    reveal_strlit("{\"description\":\"");
    reveal_strlit(",\"done\":");
    reveal_strlit("\",\"done\":");
    assert("["@ =~= seq!['[']);
    assert("]"@ =~= seq![']']);
    assert(","@ =~= seq![',']);
    assert("}"@ =~= seq!['}']);
    assert("true"@ =~= seq!['t', 'r', 'u', 'e']);
    assert("false"@ =~= seq!['f', 'a', 'l', 's', 'e']);
    assert("{\"description\":\""@ =~= seq![
        '{', '"', 'd', 'e', 's', 'c', 'r', 'i', 'p', 't', 'i', 'o', 'n', '"', ':', '"',
    ]);
    assert(",\"done\":"@ =~= seq![',', '"', 'd', 'o', 'n', 'e', '"', ':']);
    assert("\",\"done\":"@ =~= seq!['"', ',', '"', 'd', 'o', 'n', 'e', '"', ':']);
}

/// Encoding one more character extends the encoded text on the right.
proof fn lemma_enc_text_push(s: Seq<char>, c: char)
    ensures
        enc_text(s.push(c)) == enc_text(s) + enc_char(c),
    decreases s.len(),
{
    if s.len() == 0 {
        assert(s.push(c).drop_first() =~= s);
        assert(enc_text(s.push(c)) =~= enc_char(c));
        assert(enc_text(s) + enc_char(c) =~= enc_char(c));
    } else {
        assert(s.push(c).drop_first() =~= s.drop_first().push(c));
        lemma_enc_text_push(s.drop_first(), c);
        assert(enc_text(s.push(c)) =~= enc_text(s) + enc_char(c));
    }
}

/// Encoding one more task extends the encoded list on the right, with a comma
/// in front of every record but the first.
proof fn lemma_enc_list_push(ts: Seq<TaskView>, t: TaskView)
    ensures
        enc_list(ts.push(t)) == if ts.len() == 0 {
            enc_task(t)
        } else {
            enc_list(ts) + ","@ + enc_task(t)
        },
    decreases ts.len(),
{
    if ts.len() == 0 {
        assert(ts.push(t).len() == 1);
        assert(ts.push(t)[0] == t);
    } else if ts.len() == 1 {
        assert(ts.push(t).drop_first() =~= seq![t]);
        assert(ts.push(t)[0] == ts[0]);
        assert(seq![t].len() == 1 && seq![t][0] == t);
        assert(enc_list(seq![t]) == enc_task(t));
        assert(enc_list(ts.push(t)) =~= enc_task(ts[0]) + ","@ + enc_task(t));
        assert(enc_list(ts) + ","@ + enc_task(t) =~= enc_task(ts[0]) + ","@ + enc_task(t));
    } else {
        assert(ts.push(t).drop_first() =~= ts.drop_first().push(t));
        lemma_enc_list_push(ts.drop_first(), t);
        assert(enc_list(ts.push(t)) =~= enc_list(ts) + ","@ + enc_task(t));
    }
}

/// Two encoded texts closed by their quotes never read the same: whatever
/// follows them, the first characters decide each next piece.
proof fn lemma_enc_text_prefix_det(s: Seq<char>, a: Seq<char>, b: Seq<char>)
    requires
        starts_with(s, enc_text(a).push('"')),
        starts_with(s, enc_text(b).push('"')),
    ensures
        a == b,
    decreases a.len(),
{
    lemma_enc_text_step(s, a);
    lemma_enc_text_step(s, b);
    if s[0] == '"' {
        if a.len() > 0 {
            assert(false);
        }
        if b.len() > 0 {
            assert(false);
        }
        assert(a =~= b);
    } else if s[0] == '\\' {
        assert(a.len() > 0 && is_escaped(a[0]));
        assert(b.len() > 0 && is_escaped(b[0]));
        assert(code_of(a[0]) == s[1] && code_of(b[0]) == s[1]);
        lemma_code_facts();
        assert(char_of_code(code_of(a[0])) == Some(a[0]));
        assert(char_of_code(code_of(b[0])) == Some(b[0]));
        assert(a[0] == b[0]);
        lemma_enc_text_prefix_det(s.skip(2), a.drop_first(), b.drop_first());
        assert(a =~= b) by {
            assert(a.len() == b.len());
            assert forall|m: int| 0 <= m < a.len() implies a[m] == b[m] by {
                if m > 0 {
                    assert(a.drop_first()[m - 1] == b.drop_first()[m - 1]);
                }
            }
        }
    } else {
        assert(a.len() > 0 && !is_escaped(a[0]) && a[0] == s[0]);
        assert(b.len() > 0 && !is_escaped(b[0]) && b[0] == s[0]);
        lemma_enc_text_prefix_det(s.skip(1), a.drop_first(), b.drop_first());
        assert(a =~= b) by {
            assert(a.len() == b.len());
            assert forall|m: int| 0 <= m < a.len() implies a[m] == b[m] by {
                if m > 0 {
                    assert(a.drop_first()[m - 1] == b.drop_first()[m - 1]);
                }
            }
        }
    }
}

/// Two encoded task records starting at the same place are the same record,
/// of the same length.
proof fn lemma_enc_task_prefix_det(s: Seq<char>, t1: TaskView, t2: TaskView)
    requires
        starts_with(s, enc_task(t1)),
        starts_with(s, enc_task(t2)),
    ensures
        t1 == t2,
{
    lemma_literal_views();
    lemma_enc_task_parts(s, t1);
    lemma_enc_task_parts(s, t2);
    lemma_enc_text_prefix_det(s.skip(16), t1.description, t2.description);
    if t1.done != t2.done {
        let at = 25 + enc_text(t1.description).len() as int;
        lemma_starts_with_index(s.skip(at), bool_str(t1.done), 0);
        lemma_starts_with_index(s.skip(at), bool_str(t2.done), 0);
        assert(false);
    }
    assert(t1 == t2);
}

/// No two task lists share an encoded list body before the closing bracket.
proof fn lemma_enc_list_det(s: Seq<char>, a: Seq<TaskView>, b: Seq<TaskView>)
    requires
        s == enc_list(a) + "]"@,
        s == enc_list(b) + "]"@,
    ensures
        a == b,
    decreases a.len(),
{
    lemma_literal_views();
    if a.len() == 0 || b.len() == 0 {
        if a.len() == 0 && b.len() == 0 {
            assert(a =~= b);
        } else {
            let ne = if a.len() > 0 {
                a
            } else {
                b
            };
            assert(s =~= "]"@);
            assert(enc_task(ne[0]).len() >= 26);
            if ne.len() == 1 {
                assert(s =~= enc_task(ne[0]) + "]"@);
            } else {
                assert(s =~= enc_task(ne[0]) + (","@ + enc_list(ne.drop_first()) + "]"@));
            }
            assert(false);
        }
    } else {
        assert(enc_list(a) + "]"@ =~= enc_task(a[0]) + (if a.len() == 1 {
            "]"@
        } else {
            ","@ + enc_list(a.drop_first()) + "]"@
        }));
        assert(enc_list(b) + "]"@ =~= enc_task(b[0]) + (if b.len() == 1 {
            "]"@
        } else {
            ","@ + enc_list(b.drop_first()) + "]"@
        }));
        assert(s.take(enc_task(a[0]).len() as int) =~= enc_task(a[0]));
        assert(s.take(enc_task(b[0]).len() as int) =~= enc_task(b[0]));
        assert(starts_with(s, enc_task(a[0])));
        assert(starts_with(s, enc_task(b[0])));
        lemma_enc_task_prefix_det(s, a[0], b[0]);
        let rest = s.skip(enc_task(a[0]).len() as int);
        if a.len() == 1 && b.len() == 1 {
            assert(a =~= b);
        } else if a.len() == 1 || b.len() == 1 {
            if a.len() == 1 {
                assert(rest =~= "]"@);
                assert(rest =~= ","@ + enc_list(b.drop_first()) + "]"@);
            } else {
                assert(rest =~= "]"@);
                assert(rest =~= ","@ + enc_list(a.drop_first()) + "]"@);
            }
            assert(rest[0] == ']' && rest[0] == ',');
            assert(false);
        } else {
            assert(rest =~= ","@ + enc_list(a.drop_first()) + "]"@);
            assert(rest =~= ","@ + enc_list(b.drop_first()) + "]"@);
            assert(rest.skip(1) =~= enc_list(a.drop_first()) + "]"@);
            assert(rest.skip(1) =~= enc_list(b.drop_first()) + "]"@);
            lemma_enc_list_det(rest.skip(1), a.drop_first(), b.drop_first());
            assert(a =~= b) by {
                assert(a.len() == b.len());
                assert forall|m: int| 0 <= m < a.len() implies a[m] == b[m] by {
                    if m > 0 {
                        assert(a.drop_first()[m - 1] == b.drop_first()[m - 1]);
                    }
                }
            }
        }
    }
}

/// The persisted encoding is loss-less: no two task lists — descriptions,
/// flags and order included — are stored as the same text, so the stored
/// text always determines the list it came from.
pub proof fn lemma_encoding_lossless(a: Seq<TaskView>, b: Seq<TaskView>)
    requires
        enc_tasks(a) == enc_tasks(b),
    ensures
        a == b,
{
    lemma_literal_views();
    assert(enc_tasks(a).skip(1) =~= enc_list(a) + "]"@);
    assert(enc_tasks(b).skip(1) =~= enc_list(b) + "]"@);
    lemma_enc_list_det(enc_tasks(a).skip(1), a, b);
}

/// Tells whether a character must be escaped in the encoding.
fn escaped_char(c: char) -> (b: bool)
    ensures
        b == is_escaped(c),
{
    c == '"' || c == '\\' || c == '\n' || c == '\t' || c == '\r' || c == '\u{8}' || c == '\u{c}'
}

/// The code character standing for an escaped character.
fn code_char(c: char) -> (r: char)
    ensures
        r == code_of(c),
{
    if c == '\n' {
        'n'
    } else if c == '\t' {
        't'
    } else if c == '\r' {
        'r'
    } else if c == '\u{8}' {
        'b'
    } else if c == '\u{c}' {
        'f'
    } else {
        c
    }
}

/// Appends the encoding of one task record to `out`.
fn encode_task_into(out: &mut String, t: &Task)
    ensures
        final(out)@ == old(out)@ + enc_task(t@),
{
    out.append("{\"description\":\"");
    let d = t.description.as_str();
    let m = d.unicode_len();
    let ghost mid = old(out)@ + "{\"description\":\""@;
    let mut i: usize = 0;
    while i < m
        invariant
            i <= m,
            m == d@.len(),
            out@ == mid + enc_text(d@.take(i as int)),
        decreases m - i,
    {
        let c = d.get_char(i);
        if escaped_char(c) {
            push_char(out, '\\');
            push_char(out, code_char(c));
        } else {
            push_char(out, c);
        }
        proof {
            lemma_enc_text_push(d@.take(i as int), c);
            assert(d@.take(i as int + 1) =~= d@.take(i as int).push(c));
            assert(out@ =~= mid + enc_text(d@.take(i as int + 1)));
        }
        i = i + 1;
    }
    proof {
        assert(d@.take(m as int) =~= d@);
    }
    out.append("\",\"done\":");
    if t.done {
        out.append("true");
    } else {
        out.append("false");
    }
    out.append("}");
    proof {
        lemma_literal_views();
        assert(out@ =~= old(out)@ + enc_task(t@));
    }
}

/// A valid escape code names exactly one escaped character, and naming and
/// reading codes invert each other.
proof fn lemma_code_facts()
    ensures
        forall|e: char, x: char| char_of_code(e) == Some(x) ==> is_escaped(x) && code_of(x) == e,
        forall|x: char| is_escaped(x) ==> char_of_code(code_of(x)) == Some(x),
{
}

/// What the first characters of a string must look like when it starts with
/// the encoding of a text `d` followed by the closing quote.
proof fn lemma_enc_text_step(s: Seq<char>, d: Seq<char>)
    requires
        starts_with(s, enc_text(d).push('"')),
    ensures
        s.len() >= 1,
        d.len() == 0 ==> s[0] == '"',
        d.len() > 0 && is_escaped(d[0]) ==> s.len() >= 2 && s[0] == '\\' && s[1] == code_of(d[0])
            && starts_with(s.skip(2), enc_text(d.drop_first()).push('"')),
        d.len() > 0 && !is_escaped(d[0]) ==> s[0] == d[0] && starts_with(
            s.skip(1),
            enc_text(d.drop_first()).push('"'),
        ),
{
    if d.len() == 0 {
        assert(enc_text(d).push('"') =~= seq!['"']);
        assert(s.take(1)[0] == s[0]);
    } else {
        let p = enc_text(d.drop_first()).push('"');
        assert(enc_text(d).push('"') =~= enc_char(d[0]) + p);
        lemma_starts_with_parts(s, enc_char(d[0]), p);
        if is_escaped(d[0]) {
            assert(s.take(2)[0] == s[0]);
            assert(s.take(2)[1] == s[1]);
        } else {
            assert(s.take(1)[0] == s[0]);
        }
    }
}

/// Reads the character an escape code stands for, if the code is valid.
fn decode_code(e: char) -> (r: Option<char>)
    ensures
        r == char_of_code(e),
{
    if e == '"' {
        Some('"')
    } else if e == '\\' {
        Some('\\')
    } else if e == 'n' {
        Some('\n')
    } else if e == 't' {
        Some('\t')
    } else if e == 'r' {
        Some('\r')
    } else if e == 'b' {
        Some('\u{8}')
    } else if e == 'f' {
        Some('\u{c}')
    } else {
        None
    }
}

/// Checks that the characters of `lit` stand at position `i` of `v`; the
/// position just after them comes back exactly when they do.
fn expect_lit(v: &Vec<char>, i: usize, lit: &str) -> (r: Option<usize>)
    requires
        i <= v@.len(),
    ensures
        match r {
            Some(j) => j == i + lit@.len() && j <= v@.len() && starts_with(
                v@.skip(i as int),
                lit@,
            ),
            None => !starts_with(v@.skip(i as int), lit@),
        },
{
    let n = lit.unicode_len();
    if n > v.len() - i {
        return None;
    }
    let mut k: usize = 0;
    while k < n
        invariant
            k <= n,
            n == lit@.len(),
            i + n <= v@.len(),
            v@.len() <= usize::MAX,
            forall|m: int| 0 <= m < k ==> v@[i + m] == lit@[m],
        decreases n - k,
    {
        if v[i + k] != lit.get_char(k) {
            proof {
                if starts_with(v@.skip(i as int), lit@) {
                    assert(v@.skip(i as int).take(n as int)[k as int] == lit@[k as int]);
                    assert(false);
                }
            }
            return None;
        }
        k = k + 1;
    }
    proof {
        assert(v@.skip(i as int).take(n as int) =~= lit@) by {
            assert forall|m: int| 0 <= m < n implies v@.skip(i as int).take(n as int)[m]
                == lit@[m] by {
                assert(v@[i + m] == lit@[m]);
            }
        }
    }
    Some(i + n)
}

/// Parses the escaped description text standing at position `i`, up to and
/// including its closing quote. Exactly the encodings of texts are accepted,
/// and each is read back as the text it encodes.
fn parse_text(v: &Vec<char>, i: usize) -> (r: Option<(String, usize)>)
    requires
        i <= v@.len(),
    ensures
        (r matches Some(p) ==> i <= p.1 <= v@.len() && v@.subrange(i as int, p.1 as int)
            == enc_text(p.0@).push('"')),
        forall|d: Seq<char>| #[trigger] starts_with(v@.skip(i as int), enc_text(d).push('"'))
            ==> (r matches Some(p) && p.0@ == d && p.1 == i + enc_text(d).len() + 1),
{
    let mut j = i;
    let mut acc = String::new();
    proof {
        assert(v@.subrange(i as int, j as int) =~= enc_text(acc@));
        assert forall|d: Seq<char>| #[trigger] starts_with(
            v@.skip(i as int),
            enc_text(d).push('"'),
        ) implies acc@.len() <= d.len() && acc@ == d.take(acc@.len() as int) && starts_with(
            v@.skip(j as int),
            enc_text(d.skip(acc@.len() as int)).push('"'),
        ) by {
            assert(acc@ =~= d.take(0));
            assert(d.skip(0) =~= d);
        }
    }
    loop
        invariant
            i <= j <= v@.len(),
            v@.subrange(i as int, j as int) == enc_text(acc@),
            forall|d: Seq<char>| #[trigger] starts_with(v@.skip(i as int), enc_text(d).push('"'))
                ==> acc@.len() <= d.len() && acc@ == d.take(acc@.len() as int) && starts_with(
                v@.skip(j as int),
                enc_text(d.skip(acc@.len() as int)).push('"'),
            ),
        decreases v@.len() - j,
    {
        if j == v.len() {
            proof {
                assert forall|d: Seq<char>| !starts_with(
                    v@.skip(i as int),
                    enc_text(d).push('"'),
                ) by {
                    if starts_with(v@.skip(i as int), enc_text(d).push('"')) {
                        assert(starts_with(
                            v@.skip(j as int),
                            enc_text(d.skip(acc@.len() as int)).push('"'),
                        ));
                        assert(v@.skip(j as int).len() == 0);
                    }
                }
            }
            return None;
        }
        let c = v[j];
        if c == '"' {
            proof {
                let k = acc@.len() as int;
                assert(v@.subrange(i as int, j as int + 1) =~= enc_text(acc@).push('"')) by {
                    assert(v@.subrange(i as int, j as int + 1) =~= v@.subrange(
                        i as int,
                        j as int,
                    ).push(v@[j as int]));
                }
                assert forall|d: Seq<char>| #[trigger] starts_with(
                    v@.skip(i as int),
                    enc_text(d).push('"'),
                ) implies acc@ == d && j + 1 == i + enc_text(d).len() + 1 by {
                    let rem = d.skip(k);
                    lemma_enc_text_step(v@.skip(j as int), rem);
                    assert(v@.skip(j as int)[0] == v@[j as int]);
                    if rem.len() > 0 {
                        if is_escaped(rem[0]) {
                            assert(false);
                        } else {
                            assert(rem[0] == '"');
                            assert(false);
                        }
                    }
                    assert(d =~= acc@);
                    assert(v@.subrange(i as int, j as int).len() == j - i);
                }
            }
            return Some((acc, j + 1));
        } else if c == '\\' {
            if j + 1 == v.len() {
                proof {
                    assert forall|d: Seq<char>| !starts_with(
                        v@.skip(i as int),
                        enc_text(d).push('"'),
                    ) by {
                        if starts_with(v@.skip(i as int), enc_text(d).push('"')) {
                            let rem = d.skip(acc@.len() as int);
                            lemma_enc_text_step(v@.skip(j as int), rem);
                            assert(v@.skip(j as int)[0] == v@[j as int]);
                            assert(v@.skip(j as int).len() == 1);
                            if rem.len() == 0 {
                                assert(false);
                            } else if is_escaped(rem[0]) {
                                assert(false);
                            } else {
                                assert(rem[0] == '\\');
                                assert(false);
                            }
                        }
                    }
                }
                return None;
            }
            let e = v[j + 1];
            match decode_code(e) {
                Some(x) => {
                    let ghost old_acc = acc@;
                    push_char(&mut acc, x);
                    proof {
                        lemma_code_facts();
                        lemma_enc_text_push(old_acc, x);
                        let k = old_acc.len() as int;
                        assert(is_escaped(x) && code_of(x) == e);
                        assert(v@.subrange(i as int, j as int + 2) =~= enc_text(acc@)) by {
                            assert(enc_char(x) =~= seq!['\\', code_of(x)]);
                            assert(v@.subrange(i as int, j as int + 2) =~= v@.subrange(
                                i as int,
                                j as int,
                            ) + seq![v@[j as int], v@[j as int + 1]]);
                        }
                        assert forall|d: Seq<char>| #[trigger] starts_with(
                            v@.skip(i as int),
                            enc_text(d).push('"'),
                        ) implies acc@.len() <= d.len() && acc@ == d.take(acc@.len() as int)
                            && starts_with(
                            v@.skip(j as int + 2),
                            enc_text(d.skip(acc@.len() as int)).push('"'),
                        ) by {
                            let rem = d.skip(k);
                            assert(old_acc.len() <= d.len() && old_acc == d.take(k));
                            lemma_enc_text_step(v@.skip(j as int), rem);
                            assert(v@.skip(j as int)[0] == v@[j as int]);
                            if rem.len() == 0 {
                                assert(false);
                            } else if !is_escaped(rem[0]) {
                                assert(rem[0] == '\\');
                                assert(false);
                            }
                            assert(v@.skip(j as int)[1] == v@[j as int + 1]);
                            assert(code_of(rem[0]) == e);
                            assert(char_of_code(e) == Some(rem[0]));
                            assert(rem[0] == x);
                            assert(d[k] == rem[0]);
                            assert(acc@ =~= d.take(k + 1)) by {
                                assert(d.take(k + 1) =~= d.take(k).push(d[k]));
                            }
                            assert(v@.skip(j as int).skip(2) =~= v@.skip(j as int + 2));
                            assert(rem.drop_first() =~= d.skip(k + 1));
                        }
                    }
                    j = j + 2;
                }
                None => {
                    proof {
                        lemma_code_facts();
                        assert forall|d: Seq<char>| !starts_with(
                            v@.skip(i as int),
                            enc_text(d).push('"'),
                        ) by {
                            if starts_with(v@.skip(i as int), enc_text(d).push('"')) {
                                let rem = d.skip(acc@.len() as int);
                                lemma_enc_text_step(v@.skip(j as int), rem);
                                assert(v@.skip(j as int)[0] == v@[j as int]);
                                if rem.len() == 0 {
                                    assert(false);
                                } else if !is_escaped(rem[0]) {
                                    assert(rem[0] == '\\');
                                    assert(false);
                                } else {
                                    assert(v@.skip(j as int)[1] == v@[j as int + 1]);
                                    assert(code_of(rem[0]) == e);
                                    assert(char_of_code(e) == Some(rem[0]));
                                    assert(false);
                                }
                            }
                        }
                    }
                    return None;
                }
            }
        } else {
            if escaped_char(c) {
                proof {
                    assert forall|d: Seq<char>| !starts_with(
                        v@.skip(i as int),
                        enc_text(d).push('"'),
                    ) by {
                        if starts_with(v@.skip(i as int), enc_text(d).push('"')) {
                            let rem = d.skip(acc@.len() as int);
                            lemma_enc_text_step(v@.skip(j as int), rem);
                            assert(v@.skip(j as int)[0] == v@[j as int]);
                            if rem.len() == 0 {
                                assert(false);
                            } else if is_escaped(rem[0]) {
                                assert(false);
                            } else {
                                assert(rem[0] == c);
                                assert(false);
                            }
                        }
                    }
                }
                return None;
            }
            let ghost old_acc = acc@;
            push_char(&mut acc, c);
            proof {
                lemma_enc_text_push(old_acc, c);
                let k = old_acc.len() as int;
                assert(v@.subrange(i as int, j as int + 1) =~= enc_text(acc@)) by {
                    assert(enc_char(c) =~= seq![c]);
                    assert(v@.subrange(i as int, j as int + 1) =~= v@.subrange(
                        i as int,
                        j as int,
                    ).push(v@[j as int]));
                }
                assert forall|d: Seq<char>| #[trigger] starts_with(
                    v@.skip(i as int),
                    enc_text(d).push('"'),
                ) implies acc@.len() <= d.len() && acc@ == d.take(acc@.len() as int)
                    && starts_with(
                    v@.skip(j as int + 1),
                    enc_text(d.skip(acc@.len() as int)).push('"'),
                ) by {
                    let rem = d.skip(k);
                    assert(old_acc.len() <= d.len() && old_acc == d.take(k));
                    lemma_enc_text_step(v@.skip(j as int), rem);
                    assert(v@.skip(j as int)[0] == v@[j as int]);
                    if rem.len() == 0 {
                        assert(false);
                    } else if is_escaped(rem[0]) {
                        assert(false);
                    }
                    assert(rem[0] == c);
                    assert(d[k] == rem[0]);
                    assert(acc@ =~= d.take(k + 1)) by {
                        assert(d.take(k + 1) =~= d.take(k).push(d[k]));
                    }
                    assert(v@.skip(j as int).skip(1) =~= v@.skip(j as int + 1));
                    assert(rem.drop_first() =~= d.skip(k + 1));
                }
            }
            j = j + 1;
        }
    }
}

/// Where each piece of one encoded task record stands, when a string starts
/// with the encoding of the record.
proof fn lemma_enc_task_parts(s: Seq<char>, t: TaskView)
    requires
        starts_with(s, enc_task(t)),
    ensures
        starts_with(s, "{\"description\":\""@),
        starts_with(s.skip(16), enc_text(t.description).push('"')),
        starts_with(s.skip(17 + enc_text(t.description).len() as int), ",\"done\":"@),
        starts_with(s.skip(25 + enc_text(t.description).len() as int), bool_str(t.done)),
        starts_with(s.skip(25 + enc_text(t.description).len() as int + bool_str(t.done).len() as int), "}"@),
        enc_task(t).len() == 26 + enc_text(t.description).len() + bool_str(t.done).len(),
{
    lemma_literal_views();
    let head = "{\"description\":\""@;
    let q = enc_text(t.description).push('"');
    let mid = ",\"done\":"@;
    let b = bool_str(t.done);
    let tail = "}"@;
    assert(enc_task(t) =~= head + (q + (mid + (b + tail))));
    lemma_starts_with_parts(s, head, q + (mid + (b + tail)));
    lemma_starts_with_parts(s.skip(16), q, mid + (b + tail));
    assert(s.skip(16).skip(q.len() as int) =~= s.skip(17 + enc_text(t.description).len() as int));
    lemma_starts_with_parts(s.skip(17 + enc_text(t.description).len() as int), mid, b + tail);
    assert(s.skip(17 + enc_text(t.description).len() as int).skip(8) =~= s.skip(25 + enc_text(t.description).len() as int));
    lemma_starts_with_parts(s.skip(25 + enc_text(t.description).len() as int), b, tail);
    assert(s.skip(25 + enc_text(t.description).len() as int).skip(b.len() as int) =~= s.skip(25 + enc_text(t.description).len() as int + b.len() as int));
}

/// Parses one task record standing at position `i`; the record and the
/// position just after it come back exactly when the characters there are
/// the encoding of a record, and they are read back as that record.
#[verifier::rlimit(80)]
fn parse_task(v: &Vec<char>, i: usize) -> (r: Option<(Task, usize)>)
    requires
        i <= v@.len(),
    ensures
        (r matches Some(p) ==> i <= p.1 <= v@.len() && v@.subrange(i as int, p.1 as int)
            == enc_task(p.0@)),
        forall|t: TaskView| #[trigger] starts_with(v@.skip(i as int), enc_task(t)) ==> (r matches
            Some(p) && p.0@ == t && p.1 == i + enc_task(t).len()),
{
    proof {
        lemma_literal_views();
    }
    let j1 = match expect_lit(v, i, "{\"description\":\"") {
        Some(j) => j,
        None => {
            proof {
                assert forall|t: TaskView| !starts_with(v@.skip(i as int), enc_task(t)) by {
                    if starts_with(v@.skip(i as int), enc_task(t)) {
                        lemma_enc_task_parts(v@.skip(i as int), t);
                    }
                }
            }
            return None;
        },
    };
    let (d, j2) = match parse_text(v, j1) {
        Some(p) => p,
        None => {
            proof {
                assert forall|t: TaskView| !starts_with(v@.skip(i as int), enc_task(t)) by {
                    if starts_with(v@.skip(i as int), enc_task(t)) {
                        lemma_enc_task_parts(v@.skip(i as int), t);
                        assert(v@.skip(i as int).skip(16) =~= v@.skip(j1 as int));
                    }
                }
            }
            return None;
        },
    };
    let j3 = match expect_lit(v, j2, ",\"done\":") {
        Some(j) => j,
        None => {
            proof {
                assert forall|t: TaskView| !starts_with(v@.skip(i as int), enc_task(t)) by {
                    if starts_with(v@.skip(i as int), enc_task(t)) {
                        lemma_enc_task_parts(v@.skip(i as int), t);
                        assert(v@.skip(i as int).skip(16) =~= v@.skip(j1 as int));
                        assert(v@.skip(i as int).skip(17 + enc_text(t.description).len() as int)
                            =~= v@.skip(j2 as int));
                    }
                }
            }
            return None;
        },
    };
    let (done, j4) = match expect_lit(v, j3, "true") {
        Some(j) => (true, j),
        None => match expect_lit(v, j3, "false") {
            Some(j) => (false, j),
            None => {
                proof {
                    assert forall|t: TaskView| !starts_with(v@.skip(i as int), enc_task(t)) by {
                        if starts_with(v@.skip(i as int), enc_task(t)) {
                            lemma_enc_task_parts(v@.skip(i as int), t);
                            assert(v@.skip(i as int).skip(16) =~= v@.skip(j1 as int));
                            assert(v@.skip(i as int).skip(17 + enc_text(t.description).len() as int)
                                =~= v@.skip(j2 as int));
                            assert(v@.skip(i as int).skip(25 + enc_text(t.description).len() as int)
                                =~= v@.skip(j3 as int));
                        }
                    }
                }
                return None;
            },
        },
    };
    let j5 = match expect_lit(v, j4, "}") {
        Some(j) => j,
        None => {
            proof {
                assert forall|t: TaskView| !starts_with(v@.skip(i as int), enc_task(t)) by {
                    if starts_with(v@.skip(i as int), enc_task(t)) {
                        lemma_enc_task_parts(v@.skip(i as int), t);
                        assert(v@.skip(i as int).skip(16) =~= v@.skip(j1 as int));
                        assert(v@.skip(i as int).skip(17 + enc_text(t.description).len() as int)
                            =~= v@.skip(j2 as int));
                        assert(v@.skip(i as int).skip(25 + enc_text(t.description).len() as int)
                            =~= v@.skip(j3 as int));
                        if t.done {
                            assert(starts_with(v@.skip(j3 as int), "true"@));
                        } else {
                            assert(starts_with(v@.skip(j3 as int), "false"@));
                            if starts_with(v@.skip(j3 as int), "true"@) {
                                lemma_starts_with_index(v@.skip(j3 as int), "true"@, 0);
                                lemma_starts_with_index(v@.skip(j3 as int), "false"@, 0);
                                assert(false);
                            }
                        }
                        assert(done == t.done && j4 == j3 + bool_str(t.done).len());
                        assert(v@.skip(i as int).skip(25 + enc_text(t.description).len() as int + bool_str(t.done).len() as int) =~= v@.skip(j4 as int));
                    }
                }
            }
            return None;
        },
    };
    let t = Task { description: d, done };
    proof {
        lemma_starts_with_subrange(v@, i as int, "{\"description\":\""@);
        lemma_starts_with_subrange(v@, j2 as int, ",\"done\":"@);
        lemma_starts_with_subrange(v@, j3 as int, bool_str(done));
        lemma_starts_with_subrange(v@, j4 as int, "}"@);
        assert(v@.subrange(i as int, j5 as int) =~= v@.subrange(i as int, j1 as int) + v@.subrange(
            j1 as int,
            j2 as int,
        ) + v@.subrange(j2 as int, j3 as int) + v@.subrange(j3 as int, j4 as int) + v@.subrange(
            j4 as int,
            j5 as int,
        ));
        assert(v@.subrange(i as int, j5 as int) =~= enc_task(t@));
        assert forall|t2: TaskView| #[trigger] starts_with(v@.skip(i as int), enc_task(t2))
            implies t@ == t2 && j5 == i + enc_task(t2).len() by {
            lemma_enc_task_parts(v@.skip(i as int), t2);
            assert(v@.skip(i as int).skip(16) =~= v@.skip(j1 as int));
            assert(d@ == t2.description && j2 == j1 + enc_text(t2.description).len() + 1);
            assert(v@.skip(i as int).skip(17 + enc_text(t2.description).len() as int) =~= v@.skip(
                j2 as int,
            ));
            assert(v@.skip(i as int).skip(25 + enc_text(t2.description).len() as int) =~= v@.skip(
                j3 as int,
            ));
            if t2.done {
                assert(starts_with(v@.skip(j3 as int), "true"@));
                assert(done == true && j4 == j3 + 4);
            } else {
                assert(starts_with(v@.skip(j3 as int), "false"@));
                if starts_with(v@.skip(j3 as int), "true"@) {
                    lemma_starts_with_index(v@.skip(j3 as int), "true"@, 0);
                    lemma_starts_with_index(v@.skip(j3 as int), "false"@, 0);
                    assert(false);
                }
                assert(done == false && j4 == j3 + 5);
            }
        }
    }
    Some((t, j5))
}

/// Reads a persisted text back into the task list it encodes.
///
/// Exactly the texts produced by [`encode_tasks`] are accepted: the result
/// is `Some` precisely when the text is the encoding of some list, and then
/// it is the very list that was encoded, so saving and loading round-trip.
/// Any other text — a corrupted file, say — comes back as `None`.
#[verifier::rlimit(80)]
pub fn decode_tasks(s: &str) -> (r: Option<Vec<Task>>)
    ensures
        (r matches Some(ts) ==> s@ == enc_tasks(ts.deep_view())),
        forall|vs: Seq<TaskView>| #[trigger] enc_tasks(vs) == s@ ==> (r matches Some(ts)
            && ts.deep_view() == vs),
{
    let v = chars_of(s);
    let n = v.len();
    proof {
        lemma_literal_views();
    }
    if n < 2 {
        proof {
            assert forall|vs: Seq<TaskView>| enc_tasks(vs) != s@ by {
                if enc_tasks(vs) == s@ {
                    assert(enc_tasks(vs).len() >= 2);
                }
            }
        }
        return None;
    }
    if v[0] != '[' {
        proof {
            assert forall|vs: Seq<TaskView>| enc_tasks(vs) != s@ by {
                if enc_tasks(vs) == s@ {
                    assert(enc_tasks(vs)[0] == '[');
                }
            }
        }
        return None;
    }
    if v[1] == ']' {
        if n == 2 {
            let ts: Vec<Task> = Vec::new();
            proof {
                assert(ts.deep_view() =~= Seq::<TaskView>::empty());
                assert(enc_list(ts.deep_view()) == Seq::<char>::empty());
                assert(s@ =~= enc_tasks(ts.deep_view()));
                assert forall|vs: Seq<TaskView>| enc_tasks(vs) == s@ implies ts.deep_view()
                    == vs by {
                    if vs.len() > 0 {
                        assert(enc_task(vs[0]).len() >= 26) by {
                            assert(enc_text(vs[0].description).len() >= 0);
                        }
                        assert(enc_tasks(vs)[1] == enc_list(vs)[0]);
                        assert(enc_list(vs)[0] == enc_task(vs[0])[0]);
                        assert(enc_task(vs[0])[0] == '{');
                        assert(false);
                    }
                    assert(vs =~= ts.deep_view());
                }
            }
            return Some(ts);
        } else {
            proof {
                assert forall|vs: Seq<TaskView>| enc_tasks(vs) != s@ by {
                    if enc_tasks(vs) == s@ {
                        if vs.len() == 0 {
                            assert(enc_tasks(vs).len() == 2);
                        } else {
                            assert(enc_task(vs[0]).len() >= 26);
                            assert(enc_tasks(vs)[1] == enc_list(vs)[0]);
                            assert(enc_list(vs)[0] == enc_task(vs[0])[0]);
                            assert(enc_task(vs[0])[0] == '{');
                        }
                        assert(false);
                    }
                }
            }
            return None;
        }
    }
    let mut ts: Vec<Task> = Vec::new();
    let mut cur: usize = 1;
    proof {
        assert(v@.take(1) =~= "["@);
        assert(v@.take(cur as int) =~= "["@ + enc_list(ts.deep_view()) + (if ts@.len() == 0 {
            Seq::<char>::empty()
        } else {
            ","@
        }));
        assert forall|vs: Seq<TaskView>| #[trigger] enc_tasks(vs) == s@ implies ts@.len()
            < vs.len() && ts.deep_view() == vs.take(ts@.len() as int) && v@.skip(cur as int)
            == enc_list(vs.skip(ts@.len() as int)) + "]"@ by {
            if vs.len() == 0 {
                assert(enc_tasks(vs).len() == 2);
                assert(enc_tasks(vs)[1] == ']');
                assert(false);
            }
            assert(ts.deep_view() =~= vs.take(0));
            assert(vs.skip(0) =~= vs);
            assert(v@.skip(1) =~= enc_list(vs) + "]"@);
        }
    }
    loop
        invariant
            1 <= cur <= n,
            n == v@.len(),
            v@ == s@,
            v@.len() <= usize::MAX,
            v@.take(cur as int) == "["@ + enc_list(ts.deep_view()) + (if ts@.len() == 0 {
                Seq::<char>::empty()
            } else {
                ","@
            }),
            forall|vs: Seq<TaskView>| #[trigger] enc_tasks(vs) == s@ ==> ts@.len() < vs.len()
                && ts.deep_view() == vs.take(ts@.len() as int) && v@.skip(cur as int) == enc_list(
                vs.skip(ts@.len() as int),
            ) + "]"@,
        decreases v@.len() - cur,
    {
        let parsed = parse_task(&v, cur);
        match parsed {
            None => {
                proof {
                    assert forall|vs: Seq<TaskView>| enc_tasks(vs) != s@ by {
                        if enc_tasks(vs) == s@ {
                            let k = ts@.len() as int;
                            let rem = vs.skip(k);
                            assert(rem.len() >= 1);
                            if rem.len() == 1 {
                                assert(v@.skip(cur as int) =~= enc_task(rem[0]) + "]"@);
                            } else {
                                assert(v@.skip(cur as int) =~= enc_task(rem[0]) + (","@
                                    + enc_list(rem.drop_first()) + "]"@));
                            }
                            assert(v@.skip(cur as int).take(enc_task(rem[0]).len() as int)
                                =~= enc_task(rem[0]));
                            assert(starts_with(v@.skip(cur as int), enc_task(rem[0])));
                            assert(false);
                        }
                    }
                }
                return None;
            },
            Some((t, j)) => {
                let ghost old_ts = ts.deep_view();
                let ghost old_cur = cur as int;
                ts.push(t);
                cur = j;
                proof {
                    lemma_literal_views();
                    assert(ts.deep_view() =~= old_ts.push(t@));
                    lemma_enc_list_push(old_ts, t@);
                    assert(v@.take(cur as int) =~= v@.take(old_cur) + v@.subrange(
                        old_cur,
                        cur as int,
                    ));
                    assert(v@.take(cur as int) =~= "["@ + enc_list(ts.deep_view()));
                    assert forall|vs: Seq<TaskView>| #[trigger] enc_tasks(vs) == s@ implies
                        ts@.len() <= vs.len() && ts.deep_view() == vs.take(ts@.len() as int)
                        && v@.skip(cur as int) == (if ts@.len() == vs.len() {
                        "]"@
                    } else {
                        ","@ + enc_list(vs.skip(ts@.len() as int)) + "]"@
                    }) by {
                        let k = old_ts.len() as int;
                        let rem = vs.skip(k);
                        assert(rem.len() >= 1);
                        if rem.len() == 1 {
                            assert(v@.skip(old_cur) =~= enc_task(rem[0]) + "]"@);
                        } else {
                            assert(v@.skip(old_cur) =~= enc_task(rem[0]) + (","@ + enc_list(
                                rem.drop_first(),
                            ) + "]"@));
                        }
                        assert(v@.skip(old_cur).take(enc_task(rem[0]).len() as int) =~= enc_task(
                            rem[0],
                        ));
                        assert(starts_with(v@.skip(old_cur), enc_task(rem[0])));
                        assert(t@ == rem[0] && cur as int == old_cur + enc_task(rem[0]).len());
                        assert(vs[k] == rem[0]);
                        assert(ts.deep_view() =~= vs.take(k + 1));
                        if rem.len() == 1 {
                            assert(vs.len() == k + 1);
                            assert(v@.skip(cur as int) =~= "]"@) by {
                                assert(v@.skip(old_cur).skip(enc_task(rem[0]).len() as int)
                                    =~= v@.skip(cur as int));
                            }
                        } else {
                            assert(v@.skip(cur as int) =~= ","@ + enc_list(vs.skip(k + 1))
                                + "]"@) by {
                                assert(v@.skip(old_cur).skip(enc_task(rem[0]).len() as int)
                                    =~= v@.skip(cur as int));
                                assert(rem.drop_first() =~= vs.skip(k + 1));
                            }
                        }
                    }
                }
                if cur >= n {
                    proof {
                        assert forall|vs: Seq<TaskView>| enc_tasks(vs) != s@ by {
                            if enc_tasks(vs) == s@ {
                                assert(v@.skip(cur as int).len() == 0);
                                assert(false);
                            }
                        }
                    }
                    return None;
                }
                let c = v[cur];
                if c == ']' {
                    if cur + 1 == n {
                        proof {
                            lemma_literal_views();
                            assert(s@ =~= v@.take(cur as int) + seq![v@[cur as int]]);
                            assert(s@ =~= enc_tasks(ts.deep_view()));
                            assert forall|vs: Seq<TaskView>| enc_tasks(vs) == s@ implies
                                ts.deep_view() == vs by {
                                if ts@.len() != vs.len() {
                                    assert(v@.skip(cur as int)[0] == (","@ + enc_list(
                                        vs.skip(ts@.len() as int),
                                    ) + "]"@)[0]);
                                    assert(v@.skip(cur as int)[0] == ',');
                                    assert(v@.skip(cur as int)[0] == v@[cur as int]);
                                    assert(false);
                                }
                                assert(vs =~= vs.take(ts@.len() as int));
                            }
                        }
                        return Some(ts);
                    } else {
                        proof {
                            lemma_literal_views();
                            assert forall|vs: Seq<TaskView>| enc_tasks(vs) != s@ by {
                                if enc_tasks(vs) == s@ {
                                    if ts@.len() == vs.len() {
                                        assert(v@.skip(cur as int).len() == 1);
                                    } else {
                                        assert(v@.skip(cur as int)[0] == ',');
                                        assert(v@.skip(cur as int)[0] == v@[cur as int]);
                                    }
                                    assert(false);
                                }
                            }
                        }
                        return None;
                    }
                } else if c == ',' {
                    proof {
                        lemma_literal_views();
                        assert(v@.take(cur as int + 1) =~= v@.take(cur as int).push(
                            v@[cur as int],
                        ));
                        assert(v@.take(cur as int + 1) =~= "["@ + enc_list(ts.deep_view())
                            + ","@);
                        assert forall|vs: Seq<TaskView>| #[trigger] enc_tasks(vs) == s@ implies
                            ts@.len() < vs.len() && ts.deep_view() == vs.take(ts@.len() as int)
                            && v@.skip(cur as int + 1) == enc_list(vs.skip(ts@.len() as int))
                            + "]"@ by {
                            if ts@.len() == vs.len() {
                                assert(v@.skip(cur as int)[0] == ']');
                                assert(v@.skip(cur as int)[0] == v@[cur as int]);
                                assert(false);
                            }
                            assert(v@.skip(cur as int).skip(1) =~= v@.skip(cur as int + 1));
                            assert(v@.skip(cur as int + 1) =~= enc_list(vs.skip(
                                ts@.len() as int,
                            )) + "]"@);
                        }
                    }
                    cur = cur + 1;
                } else {
                    proof {
                        lemma_literal_views();
                        assert forall|vs: Seq<TaskView>| enc_tasks(vs) != s@ by {
                            if enc_tasks(vs) == s@ {
                                if ts@.len() == vs.len() {
                                    assert(v@.skip(cur as int)[0] == ']');
                                } else {
                                    assert(v@.skip(cur as int)[0] == ',');
                                }
                                assert(v@.skip(cur as int)[0] == v@[cur as int]);
                                assert(false);
                            }
                        }
                    }
                    return None;
                }
            },
        }
    }
}

/// Produces the text under which the task list is persisted: exactly
/// [`enc_tasks`] of the list's value.
pub fn encode_tasks(tasks: &Vec<Task>) -> (r: String)
    ensures
        r@ == enc_tasks(tasks.deep_view()),
{
    let mut out = String::new();
    out.append("[");
    let mut k: usize = 0;
    while k < tasks.len()
        invariant
            k <= tasks@.len(),
            out@ == "["@ + enc_list(tasks.deep_view().take(k as int)),
        decreases tasks@.len() - k,
    {
        if k > 0 {
            out.append(",");
        }
        encode_task_into(&mut out, &tasks[k]);
        proof {
            let ghost pre = tasks.deep_view().take(k as int);
            lemma_enc_list_push(pre, tasks@[k as int]@);
            assert(tasks.deep_view().take(k as int + 1) =~= pre.push(tasks@[k as int]@));
            assert(out@ =~= "["@ + enc_list(tasks.deep_view().take(k as int + 1)));
        }
        k = k + 1;
    }
    out.append("]");
    proof {
        assert(tasks.deep_view().take(tasks@.len() as int) =~= tasks.deep_view());
        assert(out@ =~= enc_tasks(tasks.deep_view()));
    }
    out
}

} // verus!
