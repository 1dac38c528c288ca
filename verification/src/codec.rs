//! The on-disk representation of the task collection: a JSON array of
//! objects, each with the string members `title` and `description` and the
//! boolean member `completed`, written compactly and in that member order.
//!
//! The grammar is fixed here twice, as a serializer (`json_of_tasks`) and as
//! a parser (`parse_tasks_spec`), and the two are proved inverse to one
//! another, so that a saved collection loads back unchanged.

use vstd::prelude::*;

use crate::task::{Task, TaskView, views_of};

verus! {

/// The error with which reading a malformed data file fails.
#[derive(Debug, Clone, Copy, PartialEq, Eq)]
pub struct ParseError;

// ---------------------------------------------------------------------------
// The escape discipline for text inside a JSON string.
// ---------------------------------------------------------------------------

/// Characters that may not stand raw inside a string of the data file.
pub open spec fn needs_escape(c: char) -> bool {
    c == '"' || c == '\\' || c == '\n' || c == '\t' || c == '\r'
}

/// The character written after the backslash when `c` is escaped.
pub open spec fn escape_code(c: char) -> char {
    if c == '"' {
        '"'
    } else if c == '\\' {
        '\\'
    } else if c == '\n' {
        'n'
    } else if c == '\t' {
        't'
    } else {
        'r'
    }
}

/// The character that the escape code `e` stands for, if `e` is known.
pub open spec fn unescape_code(e: char) -> Option<char> {
    if e == '"' {
        Some('"')
    } else if e == '\\' {
        Some('\\')
    } else if e == 'n' {
        Some('\n')
    } else if e == 't' {
        Some('\t')
    } else if e == 'r' {
        Some('\r')
    } else {
        None
    }
}

/// How one character of a text field appears in the data file.
pub open spec fn escape_char(c: char) -> Seq<char> {
    if needs_escape(c) {
        seq!['\\', escape_code(c)]
    } else {
        seq![c]
    }
}

/// How a whole text field appears in the data file.
pub open spec fn escape_str(s: Seq<char>) -> Seq<char>
    decreases s.len(),
{
    if s.len() == 0 {
        Seq::empty()
    } else {
        escape_char(s[0]) + escape_str(s.drop_first())
    }
}

// ---------------------------------------------------------------------------
// The fixed pieces of a serialized task object.
// ---------------------------------------------------------------------------

/// The opening of an object up to and including the quote that starts the
/// title text.
pub open spec fn lit_title() -> Seq<char> {
    seq!['{', '"', 't', 'i', 't', 'l', 'e', '"', ':', '"']
}

/// What stands between the title text's closing quote and the description
/// text, including the quote that starts the latter.
pub open spec fn lit_mid() -> Seq<char> {
    seq![',', '"', 'd', 'e', 's', 'c', 'r', 'i', 'p', 't', 'i', 'o', 'n', '"', ':', '"']
}

/// What stands between the description text's closing quote and the value of
/// the completion flag.
pub open spec fn lit_comp() -> Seq<char> {
    seq![',', '"', 'c', 'o', 'm', 'p', 'l', 'e', 't', 'e', 'd', '"', ':']
}

pub open spec fn lit_true() -> Seq<char> {
    seq!['t', 'r', 'u', 'e']
}

pub open spec fn lit_false() -> Seq<char> {
    seq!['f', 'a', 'l', 's', 'e']
}

// ---------------------------------------------------------------------------
// Serialization.
// ---------------------------------------------------------------------------

/// One task as a JSON object.
pub open spec fn json_of_task(t: TaskView) -> Seq<char> {
    lit_title() + escape_str(t.title) + seq!['"'] + lit_mid() + escape_str(t.description) + seq![
        '"',
    ] + lit_comp() + (if t.completed {
        lit_true()
    } else {
        lit_false()
    }) + seq!['}']
}

/// The comma-separated objects of a collection, without the brackets.
pub open spec fn json_items(ts: Seq<TaskView>) -> Seq<char>
    decreases ts.len(),
{
    if ts.len() == 0 {
        Seq::empty()
    } else if ts.len() == 1 {
        json_of_task(ts[0])
    } else {
        json_of_task(ts[0]) + seq![','] + json_items(ts.drop_first())
    }
}

/// A whole data file: the collection as a JSON array.
pub open spec fn json_of_tasks(ts: Seq<TaskView>) -> Seq<char> {
    seq!['['] + json_items(ts) + seq![']']
}

// ---------------------------------------------------------------------------
// Parsing.
// ---------------------------------------------------------------------------

/// Does `pre` stand at the front of `s`?
pub open spec fn starts_with(s: Seq<char>, pre: Seq<char>) -> bool {
    pre.len() <= s.len() && s.subrange(0, pre.len() as int) == pre
}

/// Consumes `pre` from the front of `s`.
pub open spec fn consume(s: Seq<char>, pre: Seq<char>) -> Option<Seq<char>> {
    if starts_with(s, pre) {
        Some(s.skip(pre.len() as int))
    } else {
        None
    }
}

/// Reads the inside of a JSON string up to and including its closing quote,
/// and yields the decoded text together with what follows the quote.
pub open spec fn parse_string_body(s: Seq<char>) -> Option<(Seq<char>, Seq<char>)>
    decreases s.len(),
{
    if s.len() == 0 {
        None
    } else if s[0] == '"' {
        Some((Seq::empty(), s.drop_first()))
    } else if s[0] == '\\' {
        if s.len() < 2 {
            None
        } else {
            match unescape_code(s[1]) {
                None => None,
                Some(c) => match parse_string_body(s.skip(2)) {
                    None => None,
                    Some(pair) => Some((seq![c] + pair.0, pair.1)),
                },
            }
        }
    } else if needs_escape(s[0]) {
        None
    } else {
        match parse_string_body(s.drop_first()) {
            None => None,
            Some(pair) => Some((seq![s[0]] + pair.0, pair.1)),
        }
    }
}

/// Reads the value of the completion flag.
pub open spec fn parse_bool(s: Seq<char>) -> Option<(bool, Seq<char>)> {
    match consume(s, lit_true()) {
        Some(rest) => Some((true, rest)),
        None => match consume(s, lit_false()) {
            Some(rest) => Some((false, rest)),
            None => None,
        },
    }
}

/// Reads one task object and yields it together with what follows it.
pub open spec fn parse_task(s: Seq<char>) -> Option<(TaskView, Seq<char>)> {
    match consume(s, lit_title()) {
        None => None,
        Some(s1) => match parse_string_body(s1) {
            None => None,
            Some(title_pair) => match consume(title_pair.1, lit_mid()) {
                None => None,
                Some(s3) => match parse_string_body(s3) {
                    None => None,
                    Some(desc_pair) => match consume(desc_pair.1, lit_comp()) {
                        None => None,
                        Some(s5) => match parse_bool(s5) {
                            None => None,
                            Some(flag_pair) => match consume(flag_pair.1, seq!['}']) {
                                None => None,
                                Some(s7) => Some(
                                    (
                                        TaskView {
                                            title: title_pair.0,
                                            description: desc_pair.0,
                                            completed: flag_pair.0,
                                        },
                                        s7,
                                    ),
                                ),
                            },
                        },
                    },
                },
            },
        },
    }
}

/// Reads a non-empty comma-separated run of task objects that must end at a
/// closing bracket standing as the very last character.
pub open spec fn parse_items(s: Seq<char>) -> Option<Seq<TaskView>>
    decreases s.len(),
{
    match parse_task(s) {
        None => None,
        Some(pair) => {
            let rest = pair.1;
            if rest.len() == 1 && rest[0] == ']' {
                Some(seq![pair.0])
            } else if rest.len() >= 1 && rest.len() < s.len() && rest[0] == ',' {
                match parse_items(rest.drop_first()) {
                    None => None,
                    Some(ts) => Some(seq![pair.0] + ts),
                }
            } else {
                None
            }
        },
    }
}

/// Reads a whole data file: a JSON array of task objects.
pub open spec fn parse_tasks_spec(s: Seq<char>) -> Option<Seq<TaskView>> {
    if s.len() < 2 || s[0] != '[' {
        None
    } else if s.len() == 2 && s[1] == ']' {
        Some(Seq::empty())
    } else {
        parse_items(s.drop_first())
    }
}

// ---------------------------------------------------------------------------
// The executable serializer.
// ---------------------------------------------------------------------------

/// Relies on std's `String::push`: appends the given character to the end of
/// this `String`.
#[verifier::external_body]
fn push_char(s: &mut String, c: char)
    ensures
        final(s)@ == old(s)@.push(c),
{
    s.push(c)
}

proof fn lemma_lit_title_str()
    ensures
        "{\"title\":\""@ == lit_title(),
{
    reveal_strlit("{\"title\":\"");
    assert("{\"title\":\""@ =~= lit_title());
}

proof fn lemma_lit_mid_str()
    ensures
        ",\"description\":\""@ == lit_mid(),
{
    reveal_strlit(",\"description\":\"");
    assert(",\"description\":\""@ =~= lit_mid());
}

proof fn lemma_lit_comp_str()
    ensures
        ",\"completed\":"@ == lit_comp(),
{
    reveal_strlit(",\"completed\":");
    assert(",\"completed\":"@ =~= lit_comp());
}

proof fn lemma_lit_true_str()
    ensures
        "true"@ == lit_true(),
{
    reveal_strlit("true");
    assert("true"@ =~= lit_true());
}

proof fn lemma_lit_false_str()
    ensures
        "false"@ == lit_false(),
{
    reveal_strlit("false");
    assert("false"@ =~= lit_false());
}

/// `escape_str` distributes over concatenation.
proof fn lemma_escape_str_append(a: Seq<char>, b: Seq<char>)
    ensures
        escape_str(a + b) == escape_str(a) + escape_str(b),
    decreases a.len(),
{
    if a.len() == 0 {
        assert(a + b =~= b);
        assert(escape_str(a) + escape_str(b) =~= escape_str(b));
    } else {
        assert((a + b).drop_first() =~= a.drop_first() + b);
        lemma_escape_str_append(a.drop_first(), b);
        assert(escape_str(a + b) =~= escape_str(a) + escape_str(b));
    }
}

proof fn lemma_escape_str_snoc(s: Seq<char>, i: int)
    requires
        0 <= i < s.len(),
    ensures
        escape_str(s.take(i + 1)) == escape_str(s.take(i)) + escape_char(s[i]),
{
    let single = seq![s[i]];
    assert(s.take(i + 1) =~= s.take(i) + single);
    lemma_escape_str_append(s.take(i), single);
    assert(single.drop_first() =~= Seq::<char>::empty());
    assert(escape_str(single.drop_first()) == Seq::<char>::empty());
    assert(escape_str(single) == escape_char(single[0]) + escape_str(single.drop_first()));
    assert(single[0] == s[i]);
    assert(escape_str(single) =~= escape_char(s[i]));
}

/// Appends the escaped form of one character.
fn push_escaped(out: &mut String, c: char)
    ensures
        final(out)@ == old(out)@ + escape_char(c),
{
    if c == '"' {
        push_char(out, '\\');
        push_char(out, '"');
    } else if c == '\\' {
        push_char(out, '\\');
        push_char(out, '\\');
    } else if c == '\n' {
        push_char(out, '\\');
        push_char(out, 'n');
    } else if c == '\t' {
        push_char(out, '\\');
        push_char(out, 't');
    } else if c == '\r' {
        push_char(out, '\\');
        push_char(out, 'r');
    } else {
        push_char(out, c);
    }
    proof {
        assert(out@ =~= old(out)@ + escape_char(c));
    }
}

/// Appends the escaped form of a whole text field.
fn push_escaped_str(out: &mut String, s: &str)
    ensures
        final(out)@ == old(out)@ + escape_str(s@),
{
    let n = s.unicode_len();
    let mut i: usize = 0;
    while i < n
        invariant
            n == s@.len(),
            i <= n,
            out@ == old(out)@ + escape_str(s@.take(i as int)),
        decreases n - i,
    {
        let c = s.get_char(i);
        push_escaped(out, c);
        proof {
            lemma_escape_str_snoc(s@, i as int);
        }
        i += 1;
    }
    proof {
        assert(s@.take(n as int) =~= s@);
    }
}

/// Appends one task as a JSON object.
fn push_task(out: &mut String, t: &Task)
    ensures
        final(out)@ == old(out)@ + json_of_task(t@),
{
    out.append("{\"title\":\"");
    push_escaped_str(out, t.title.as_str());
    push_char(out, '"');
    out.append(",\"description\":\"");
    push_escaped_str(out, t.description.as_str());
    push_char(out, '"');
    out.append(",\"completed\":");
    if t.completed {
        out.append("true");
    } else {
        out.append("false");
    }
    push_char(out, '}');
    proof {
        lemma_lit_title_str();
        lemma_lit_mid_str();
        lemma_lit_comp_str();
        lemma_lit_true_str();
        lemma_lit_false_str();
        assert(out@ =~= old(out)@ + json_of_task(t@));
    }
}

proof fn lemma_json_items_snoc(ts: Seq<TaskView>, t: TaskView)
    requires
        ts.len() >= 1,
    ensures
        json_items(ts.push(t)) == json_items(ts) + seq![','] + json_of_task(t),
    decreases ts.len(),
{
    if ts.len() == 1 {
        let one = ts.push(t);
        assert(one.drop_first() =~= seq![t]);
        assert(json_items(seq![t]) == json_of_task(t));
        assert(json_items(one) =~= json_items(ts) + seq![','] + json_of_task(t));
    } else {
        lemma_json_items_snoc(ts.drop_first(), t);
        assert(ts.push(t).drop_first() =~= ts.drop_first().push(t));
        assert(json_items(ts.push(t)) =~= json_items(ts) + seq![','] + json_of_task(t));
    }
}

/// Writes the whole collection in its on-disk form.
pub(crate) fn serialize_tasks(tasks: &Vec<Task>) -> (r: String)
    ensures
        r@ == json_of_tasks(views_of(tasks@)),
{
    let ghost vts = views_of(tasks@);
    let mut out = String::new();
    push_char(&mut out, '[');
    let n = tasks.len();
    let mut i: usize = 0;
    while i < n
        invariant
            n == tasks@.len(),
            vts == views_of(tasks@),
            i <= n,
            out@ == seq!['['] + json_items(vts.take(i as int)),
        decreases n - i,
    {
        if i > 0 {
            push_char(&mut out, ',');
        }
        push_task(&mut out, &tasks[i]);
        proof {
            assert(vts[i as int] == tasks@[i as int]@);
            if i == 0 {
                assert(vts.take(1) =~= seq![vts[0]]);
                assert(json_items(vts.take(1)) == json_of_task(vts[0]));
            } else {
                assert(vts.take(i + 1) =~= vts.take(i as int).push(vts[i as int]));
                lemma_json_items_snoc(vts.take(i as int), vts[i as int]);
            }
            assert(out@ =~= seq!['['] + json_items(vts.take(i + 1)));
        }
        i += 1;
    }
    push_char(&mut out, ']');
    proof {
        assert(vts.take(n as int) =~= vts);
        assert(out@ =~= json_of_tasks(vts));
    }
    out
}

// ---------------------------------------------------------------------------
// The executable parser.
// ---------------------------------------------------------------------------

/// The characters of `s`, in order.
fn str_to_chars(s: &str) -> (r: Vec<char>)
    ensures
        r@ == s@,
{
    let n: usize = s.unicode_len();
    let mut r: Vec<char> = Vec::new();
    let mut i: usize = 0;
    while i < n
        invariant
            n == s@.len(),
            i <= n,
            r@ == s@.take(i as int),
        decreases n - i,
    {
        r.push(s.get_char(i));
        proof {
            assert(s@.take(i + 1) =~= s@.take(i as int).push(s@[i as int]));
        }
        i += 1;
    }
    proof {
        assert(s@.take(n as int) =~= s@);
    }
    r
}

/// The characters of `v` as a `String`.
fn chars_to_string(v: &Vec<char>) -> (r: String)
    ensures
        r@ == v@,
{
    let mut r = String::new();
    let mut i: usize = 0;
    while i < v.len()
        invariant
            i <= v@.len(),
            r@ == v@.take(i as int),
        decreases v@.len() - i,
    {
        push_char(&mut r, v[i]);
        proof {
            assert(v@.take(i + 1) =~= v@.take(i as int).push(v@[i as int]));
        }
        i += 1;
    }
    proof {
        assert(v@.take(v@.len() as int) =~= v@);
    }
    r
}

/// Does `pat` stand in `s` at position `i`?
fn match_prefix(s: &Vec<char>, i: usize, pat: &Vec<char>) -> (b: bool)
    requires
        i <= s@.len(),
    ensures
        b == starts_with(s@.skip(i as int), pat@),
{
    if s.len() - i < pat.len() {
        return false;
    }
    proof {
        assert(s@.len() == s.len());
    }
    let mut j: usize = 0;
    while j < pat.len()
        invariant
            i + pat@.len() <= s@.len(),
            s@.len() <= usize::MAX,
            j <= pat@.len(),
            forall|k: int| 0 <= k < j ==> s@.skip(i as int)[k] == pat@[k],
        decreases pat@.len() - j,
    {
        if s[i + j] != pat[j] {
            proof {
                let sk = s@.skip(i as int);
                assert(sk[j as int] == s@[i + j]);
                assert(sk.subrange(0, pat@.len() as int)[j as int] == sk[j as int]);
            }
            return false;
        }
        j += 1;
    }
    proof {
        assert(s@.skip(i as int).subrange(0, pat@.len() as int) =~= pat@);
    }
    true
}

/// Skipping a consumed prefix is skipping that many characters more.
proof fn lemma_consume_skip(s: Seq<char>, i: int, pre: Seq<char>)
    requires
        0 <= i <= s.len(),
        starts_with(s.skip(i), pre),
    ensures
        consume(s.skip(i), pre) == Some(s.skip(i + pre.len())),
{
    assert(s.skip(i).skip(pre.len() as int) =~= s.skip(i + pre.len()));
}

/// How reading a string body from the middle of the input relates to reading
/// it from further left: the characters decoded so far stand in front.
spec fn body_extends(
    full: Option<(Seq<char>, Seq<char>)>,
    prefix: Seq<char>,
    tail: Option<(Seq<char>, Seq<char>)>,
) -> bool {
    match tail {
        None => full is None,
        Some(p) => full == Some((prefix + p.0, p.1)),
    }
}

/// Reads a string body starting at `i`, up to and including the closing
/// quote.
fn parse_string_body_exec(s: &Vec<char>, i: usize) -> (r: Result<(Vec<char>, usize), ParseError>)
    requires
        i <= s@.len(),
    ensures
        match r {
            Ok(pair) => ({
                &&& parse_string_body(s@.skip(i as int)) == Some(
                    (pair.0@, s@.skip(pair.1 as int)),
                )
                &&& i < pair.1 <= s@.len()
            }),
            Err(_) => parse_string_body(s@.skip(i as int)) is None,
        },
{
    let mut content: Vec<char> = Vec::new();
    let mut j: usize = i;
    loop
        invariant
            i <= j <= s@.len(),
            body_extends(
                parse_string_body(s@.skip(i as int)),
                content@,
                parse_string_body(s@.skip(j as int)),
            ),
        decreases s@.len() - j,
    {
        if j >= s.len() {
            proof {
                assert(s@.skip(j as int).len() == 0);
            }
            return Err(ParseError);
        }
        let c = s[j];
        proof {
            assert(s@.skip(j as int)[0] == s@[j as int]);
        }
        if c == '"' {
            proof {
                assert(s@.skip(j as int).drop_first() =~= s@.skip(j + 1));
                assert(content@ + Seq::<char>::empty() =~= content@);
            }
            return Ok((content, j + 1));
        } else if c == '\\' {
            if s.len() - j < 2 {
                proof {
                    assert(s@.skip(j as int).len() < 2);
                }
                return Err(ParseError);
            }
            let e = s[j + 1];
            proof {
                assert(s@.skip(j as int)[1] == s@[j + 1]);
            }
            let d_opt: Option<char> = if e == '"' {
                Some('"')
            } else if e == '\\' {
                Some('\\')
            } else if e == 'n' {
                Some('\n')
            } else if e == 't' {
                Some('\t')
            } else if e == 'r' {
                Some('\r')
            } else {
                None
            };
            match d_opt {
                None => {
                    proof {
                        assert(unescape_code(s@[j + 1]) is None);
                    }
                    return Err(ParseError);
                },
                Some(d) => {
                    proof {
                        assert(unescape_code(s@[j + 1]) == Some(d));
                        assert(s@.skip(j as int).skip(2) =~= s@.skip(j + 2));
                    }
                    let ghost c0 = content@;
                    content.push(d);
                    proof {
                        let tail = parse_string_body(s@.skip(j + 2));
                        if tail is Some {
                            let p = tail->0;
                            assert(parse_string_body(s@.skip(j as int)) == Some(
                                (seq![d] + p.0, p.1),
                            ));
                            assert(c0 + (seq![d] + p.0) =~= content@ + p.0);
                        }
                    }
                    j += 2;
                },
            }
        } else if c == '\n' || c == '\t' || c == '\r' {
            return Err(ParseError);
        } else {
            proof {
                assert(s@.skip(j as int).drop_first() =~= s@.skip(j + 1));
            }
            let ghost c0 = content@;
            content.push(c);
            proof {
                let tail = parse_string_body(s@.skip(j + 1));
                if tail is Some {
                    let p = tail->0;
                    assert(parse_string_body(s@.skip(j as int)) == Some(
                        (seq![s@[j as int]] + p.0, p.1),
                    ));
                    assert(c0 + (seq![s@[j as int]] + p.0) =~= content@ + p.0);
                }
            }
            j += 1;
        }
    }
}

/// Reads the value of the completion flag starting at `i`.
fn parse_bool_exec(s: &Vec<char>, i: usize) -> (r: Result<(bool, usize), ParseError>)
    requires
        i <= s@.len(),
    ensures
        match r {
            Ok(pair) => ({
                &&& parse_bool(s@.skip(i as int)) == Some((pair.0, s@.skip(pair.1 as int)))
                &&& i < pair.1 <= s@.len()
            }),
            Err(_) => parse_bool(s@.skip(i as int)) is None,
        },
{
    proof {
        assert(s@.len() == s.len());
    }
    let lt = str_to_chars("true");
    proof {
        lemma_lit_true_str();
    }
    if match_prefix(s, i, &lt) {
        proof {
            lemma_consume_skip(s@, i as int, lit_true());
        }
        return Ok((true, i + 4));
    }
    let lf = str_to_chars("false");
    proof {
        lemma_lit_false_str();
    }
    if match_prefix(s, i, &lf) {
        proof {
            lemma_consume_skip(s@, i as int, lit_false());
        }
        return Ok((false, i + 5));
    }
    Err(ParseError)
}

/// Reads one task object starting at `i`.
fn parse_task_exec(s: &Vec<char>, i: usize) -> (r: Result<(Task, usize), ParseError>)
    requires
        i <= s@.len(),
    ensures
        match r {
            Ok(pair) => ({
                &&& parse_task(s@.skip(i as int)) == Some((pair.0@, s@.skip(pair.1 as int)))
                &&& i < pair.1 <= s@.len()
            }),
            Err(_) => parse_task(s@.skip(i as int)) is None,
        },
{
    proof {
        assert(s@.len() == s.len());
    }
    let lt = str_to_chars("{\"title\":\"");
    proof {
        lemma_lit_title_str();
    }
    if !match_prefix(s, i, &lt) {
        return Err(ParseError);
    }
    proof {
        lemma_consume_skip(s@, i as int, lit_title());
    }
    let j1: usize = i + lt.len();
    let title_pair = match parse_string_body_exec(s, j1) {
        Ok(p) => p,
        Err(e) => {
            return Err(e);
        },
    };
    let title_chars = title_pair.0;
    let j2: usize = title_pair.1;
    let lm = str_to_chars(",\"description\":\"");
    proof {
        lemma_lit_mid_str();
    }
    if !match_prefix(s, j2, &lm) {
        return Err(ParseError);
    }
    proof {
        lemma_consume_skip(s@, j2 as int, lit_mid());
    }
    let j3: usize = j2 + lm.len();
    let desc_pair = match parse_string_body_exec(s, j3) {
        Ok(p) => p,
        Err(e) => {
            return Err(e);
        },
    };
    let desc_chars = desc_pair.0;
    let j4: usize = desc_pair.1;
    let lc = str_to_chars(",\"completed\":");
    proof {
        lemma_lit_comp_str();
    }
    if !match_prefix(s, j4, &lc) {
        return Err(ParseError);
    }
    proof {
        lemma_consume_skip(s@, j4 as int, lit_comp());
    }
    let j5: usize = j4 + lc.len();
    let flag_pair = match parse_bool_exec(s, j5) {
        Ok(p) => p,
        Err(e) => {
            return Err(e);
        },
    };
    let completed = flag_pair.0;
    let j6: usize = flag_pair.1;
    if j6 >= s.len() || s[j6] != '}' {
        proof {
            let sk = s@.skip(j6 as int);
            if j6 < s@.len() {
                assert(sk.subrange(0, 1)[0] == sk[0]);
                assert(sk[0] == s@[j6 as int]);
                assert(!starts_with(sk, seq!['}']));
            }
        }
        return Err(ParseError);
    }
    proof {
        let sk = s@.skip(j6 as int);
        assert(sk[0] == s@[j6 as int]);
        assert(sk.subrange(0, 1) =~= seq!['}']);
        lemma_consume_skip(s@, j6 as int, seq!['}']);
    }
    let title = chars_to_string(&title_chars);
    let description = chars_to_string(&desc_chars);
    let t = Task { title, description, completed };
    Ok((t, j6 + 1))
}

/// How reading the items from the middle of the array relates to reading
/// them from its start: the records read so far stand in front.
spec fn items_extend(
    full: Option<Seq<TaskView>>,
    prefix: Seq<TaskView>,
    tail: Option<Seq<TaskView>>,
) -> bool {
    match tail {
        None => full is None,
        Some(ts) => full == Some(prefix + ts),
    }
}

/// The views of a collection grow by one view under a push.
proof fn lemma_views_push(tasks: Seq<Task>, t: Task)
    ensures
        views_of(tasks.push(t)) == views_of(tasks).push(t@),
{
    assert(views_of(tasks.push(t)) =~= views_of(tasks).push(t@));
}

/// Reads a whole data file.
pub(crate) fn parse_tasks(s: &str) -> (r: Result<Vec<Task>, ParseError>)
    ensures
        match r {
            Ok(tasks) => parse_tasks_spec(s@) == Some(views_of(tasks@)),
            Err(_) => parse_tasks_spec(s@) is None,
        },
{
    let v = str_to_chars(s);
    let n: usize = v.len();
    if n < 2 {
        return Err(ParseError);
    }
    let c0 = v[0];
    if c0 != '[' {
        return Err(ParseError);
    }
    if n == 2 && v[1] == ']' {
        let tasks: Vec<Task> = Vec::new();
        proof {
            assert(views_of(tasks@) =~= Seq::<TaskView>::empty());
        }
        return Ok(tasks);
    }
    let mut acc: Vec<Task> = Vec::new();
    let mut j: usize = 1;
    proof {
        assert(v@.drop_first() =~= v@.skip(1));
        assert(views_of(acc@) =~= Seq::<TaskView>::empty());
        let whole = parse_items(v@.skip(1));
        if whole is Some {
            assert(Seq::<TaskView>::empty() + whole->0 =~= whole->0);
        }
    }
    loop
        invariant
            1 <= j <= v@.len(),
            v@ == s@,
            n == v@.len(),
            n >= 2,
            v@[0] == '[',
            !(n == 2 && v@[1] == ']'),
            items_extend(parse_items(v@.skip(1)), views_of(acc@), parse_items(v@.skip(j as int))),
        decreases v@.len() - j,
    {
        let task_pair = match parse_task_exec(&v, j) {
            Ok(p) => p,
            Err(_) => {
                proof {
                    assert(v@.drop_first() =~= v@.skip(1));
                }
                return Err(ParseError);
            },
        };
        let t = task_pair.0;
        let j2: usize = task_pair.1;
        let ghost acc0 = acc@;
        acc.push(t);
        proof {
            lemma_views_push(acc0, t);
        }
        if n - j2 == 1 && v[j2] == ']' {
            proof {
                let rest = v@.skip(j2 as int);
                assert(rest.len() == 1);
                assert(rest[0] == v@[j2 as int]);
                assert(parse_items(v@.skip(j as int)) == Some(seq![t@]));
                assert(views_of(acc0) + seq![t@] =~= views_of(acc@));
                assert(v@.drop_first() =~= v@.skip(1));
            }
            return Ok(acc);
        } else if j2 < n && v[j2] == ',' {
            proof {
                let rest = v@.skip(j2 as int);
                assert(rest.len() == n - j2 >= 1);
                assert(rest[0] == v@[j2 as int]);
                assert(rest.drop_first() =~= v@.skip(j2 + 1));
                let tail = parse_items(v@.skip(j2 + 1));
                if tail is Some {
                    assert(parse_items(v@.skip(j as int)) == Some(seq![t@] + tail->0));
                    assert(views_of(acc0) + (seq![t@] + tail->0) =~= views_of(acc@) + tail->0);
                } else {
                    assert(parse_items(v@.skip(j as int)) is None);
                }
            }
            j = j2 + 1;
        } else {
            proof {
                let rest = v@.skip(j2 as int);
                if j2 < n {
                    assert(rest[0] == v@[j2 as int]);
                }
                assert(parse_items(v@.skip(j as int)) is None);
                assert(v@.drop_first() =~= v@.skip(1));
            }
            return Err(ParseError);
        }
    }
}

// ---------------------------------------------------------------------------
// The parser inverts the serializer.
// ---------------------------------------------------------------------------

proof fn lemma_consume_concat(pre: Seq<char>, rest: Seq<char>)
    ensures
        consume(pre + rest, pre) == Some(rest),
{
    let s = pre + rest;
    assert(s.subrange(0, pre.len() as int) =~= pre);
    assert(s.skip(pre.len() as int) =~= rest);
}

/// Reading a string body off an escaped text followed by its closing quote
/// yields that text back, with the input behind the quote untouched.
proof fn lemma_parse_escaped(content: Seq<char>, rest: Seq<char>)
    ensures
        parse_string_body(escape_str(content) + seq!['"'] + rest) == Some((content, rest)),
    decreases content.len(),
{
    let s = escape_str(content) + seq!['"'] + rest;
    if content.len() == 0 {
        assert(escape_str(content) =~= Seq::<char>::empty());
        assert(s =~= seq!['"'] + rest);
        assert(s[0] == '"');
        assert(s.drop_first() =~= rest);
    } else {
        let c = content[0];
        let tail = content.drop_first();
        let s2 = escape_str(tail) + seq!['"'] + rest;
        lemma_parse_escaped(tail, rest);
        assert(escape_str(content) == escape_char(c) + escape_str(tail));
        if needs_escape(c) {
            assert(s[0] == '\\');
            assert(s[1] == escape_code(c));
            assert(unescape_code(escape_code(c)) == Some(c));
            assert(s.skip(2) =~= s2);
            assert(parse_string_body(s) == Some((seq![c] + tail, rest)));
            assert(seq![c] + tail =~= content);
        } else {
            assert(s[0] == c);
            assert(s.drop_first() =~= s2);
            assert(parse_string_body(s) == Some((seq![c] + tail, rest)));
            assert(seq![c] + tail =~= content);
        }
    }
}

/// Reading one object off its serialization yields the task back.
proof fn lemma_parse_task_json(t: TaskView, rest: Seq<char>)
    ensures
        parse_task(json_of_task(t) + rest) == Some((t, rest)),
{
    let s = json_of_task(t) + rest;
    let blit = if t.completed {
        lit_true()
    } else {
        lit_false()
    };
    let r6 = seq!['}'] + rest;
    let r5 = blit + r6;
    let r4 = lit_comp() + r5;
    let r3 = escape_str(t.description) + seq!['"'] + r4;
    let r2 = lit_mid() + r3;
    let r1 = escape_str(t.title) + seq!['"'] + r2;
    assert(s =~= lit_title() + r1);
    lemma_consume_concat(lit_title(), r1);
    lemma_parse_escaped(t.title, r2);
    lemma_consume_concat(lit_mid(), r3);
    lemma_parse_escaped(t.description, r4);
    lemma_consume_concat(lit_comp(), r5);
    if t.completed {
        lemma_consume_concat(lit_true(), r6);
        assert(parse_bool(r5) == Some((true, r6)));
    } else {
        lemma_consume_concat(lit_false(), r6);
        assert(r5[0] == 'f') by {
            assert(r5[0] == lit_false()[0]);
        }
        assert(!starts_with(r5, lit_true())) by {
            if starts_with(r5, lit_true()) {
                assert(r5.subrange(0, 4)[0] == r5[0]);
            }
        }
        assert(parse_bool(r5) == Some((false, r6)));
    }
    lemma_consume_concat(seq!['}'], rest);
    assert(parse_task(s) == Some((t, rest)));
}

/// Reading the items off a serialized, non-empty collection followed by the
/// closing bracket yields the collection back.
proof fn lemma_parse_items_json(ts: Seq<TaskView>)
    requires
        ts.len() >= 1,
    ensures
        parse_items(json_items(ts) + seq![']']) == Some(ts),
    decreases ts.len(),
{
    let s = json_items(ts) + seq![']'];
    if ts.len() == 1 {
        lemma_parse_task_json(ts[0], seq![']']);
        assert(parse_task(s) == Some((ts[0], seq![']'])));
        assert(seq![ts[0]] =~= ts);
    } else {
        let tail = ts.drop_first();
        let s2 = json_items(tail) + seq![']'];
        lemma_parse_items_json(tail);
        let mid = seq![','] + s2;
        lemma_parse_task_json(ts[0], mid);
        assert(s =~= json_of_task(ts[0]) + mid);
        assert(parse_task(s) == Some((ts[0], mid)));
        assert(json_of_task(ts[0]).len() >= 10) by {
            assert(lit_title().len() == 10);
        }
        assert(mid[0] == ',');
        assert(mid.len() >= 1 && mid.len() < s.len());
        assert(mid.drop_first() =~= s2);
        assert(seq![ts[0]] + tail =~= ts);
    }
}

proof fn lemma_escape_str_single(c: char)
    ensures
        escape_str(seq![c]) == escape_char(c),
{
    let single = seq![c];
    assert(single.drop_first() =~= Seq::<char>::empty());
    assert(escape_str(single) == escape_char(c) + escape_str(single.drop_first()));
    assert(escape_char(c) + Seq::<char>::empty() =~= escape_char(c));
}

proof fn lemma_consume_sound(s: Seq<char>, pre: Seq<char>)
    requires
        consume(s, pre) is Some,
    ensures
        s == pre + consume(s, pre)->0,
{
    assert(s =~= s.subrange(0, pre.len() as int) + s.skip(pre.len() as int));
}

/// What a string body was read from is exactly the escaped text followed by
/// its closing quote.
proof fn lemma_string_body_sound(s: Seq<char>)
    requires
        parse_string_body(s) is Some,
    ensures
        ({
            let p = parse_string_body(s)->0;
            s == escape_str(p.0) + seq!['"'] + p.1
        }),
    decreases s.len(),
{
    let p = parse_string_body(s)->0;
    if s[0] == '"' {
        assert(escape_str(p.0) =~= Seq::<char>::empty());
        assert(s =~= escape_str(p.0) + seq!['"'] + p.1);
    } else if s[0] == '\\' {
        let c = unescape_code(s[1])->0;
        let q = parse_string_body(s.skip(2))->0;
        lemma_string_body_sound(s.skip(2));
        assert(needs_escape(c) && escape_code(c) == s[1]);
        lemma_escape_str_append(seq![c], q.0);
        assert(seq![c] + q.0 =~= p.0);
        lemma_escape_str_single(c);
        assert(s =~= seq!['\\', s[1]] + s.skip(2));
        assert(escape_char(c) == seq!['\\', s[1]]);
        assert(escape_char(c) + (escape_str(q.0) + seq!['"'] + q.1) =~= escape_str(p.0) + seq![
            '"',
        ] + p.1);
        assert(s =~= escape_str(p.0) + seq!['"'] + p.1);
    } else {
        let q = parse_string_body(s.drop_first())->0;
        lemma_string_body_sound(s.drop_first());
        lemma_escape_str_append(seq![s[0]], q.0);
        assert(seq![s[0]] + q.0 =~= p.0);
        lemma_escape_str_single(s[0]);
        assert(escape_char(s[0]) =~= seq![s[0]]);
        assert(s =~= seq![s[0]] + s.drop_first());
        assert(seq![s[0]] + (escape_str(q.0) + seq!['"'] + q.1) =~= escape_str(p.0) + seq![
            '"',
        ] + p.1);
        assert(s =~= escape_str(p.0) + seq!['"'] + p.1);
    }
}

/// What one object was read from is exactly that object's serialization.
#[verifier::rlimit(100)]
proof fn lemma_parse_task_sound(s: Seq<char>)
    requires
        parse_task(s) is Some,
    ensures
        ({
            let p = parse_task(s)->0;
            s == json_of_task(p.0) + p.1
        }),
{
    let t = (parse_task(s)->0).0;
    let rest = (parse_task(s)->0).1;
    let s1 = consume(s, lit_title())->0;
    lemma_consume_sound(s, lit_title());
    let tp = parse_string_body(s1)->0;
    lemma_string_body_sound(s1);
    let s3 = consume(tp.1, lit_mid())->0;
    lemma_consume_sound(tp.1, lit_mid());
    let dp = parse_string_body(s3)->0;
    lemma_string_body_sound(s3);
    let s5 = consume(dp.1, lit_comp())->0;
    lemma_consume_sound(dp.1, lit_comp());
    let flag = parse_bool(s5)->0;
    if consume(s5, lit_true()) is Some {
        lemma_consume_sound(s5, lit_true());
    } else {
        lemma_consume_sound(s5, lit_false());
    }
    let s6 = flag.1;
    lemma_consume_sound(s6, seq!['}']);
    assert(s =~= json_of_task(t) + rest);
}

/// What a run of items was read from is exactly the serialization of those
/// items followed by the closing bracket.
proof fn lemma_parse_items_sound(s: Seq<char>)
    requires
        parse_items(s) is Some,
    ensures
        parse_items(s)->0.len() >= 1,
        s == json_items(parse_items(s)->0) + seq![']'],
    decreases s.len(),
{
    let ts = parse_items(s)->0;
    let pair = parse_task(s)->0;
    let rest = pair.1;
    lemma_parse_task_sound(s);
    if rest.len() == 1 && rest[0] == ']' {
        assert(ts =~= seq![pair.0]);
        assert(rest =~= seq![']']);
        assert(s =~= json_items(ts) + seq![']']);
    } else {
        let tail = parse_items(rest.drop_first())->0;
        lemma_parse_items_sound(rest.drop_first());
        assert(ts =~= seq![pair.0] + tail);
        assert(ts.drop_first() =~= tail);
        assert(ts.len() >= 2);
        assert(rest =~= seq![','] + rest.drop_first());
        assert(s =~= json_items(ts) + seq![']']);
    }
}

/// The persisted representation is canonical: text that parses successfully
/// is exactly the serialization of the collection it yields.
pub proof fn lemma_parse_canonical(s: Seq<char>)
    requires
        parse_tasks_spec(s) is Some,
    ensures
        s == json_of_tasks(parse_tasks_spec(s)->0),
{
    let ts = parse_tasks_spec(s)->0;
    if s.len() == 2 && s[1] == ']' {
        assert(json_items(ts) =~= Seq::<char>::empty());
        assert(s =~= json_of_tasks(ts));
    } else {
        lemma_parse_items_sound(s.drop_first());
        assert(s.drop_first() == json_items(ts) + seq![']']);
        assert(s =~= seq!['['] + s.drop_first());
        assert(seq!['['] + (json_items(ts) + seq![']']) =~= json_of_tasks(ts));
        assert(s =~= json_of_tasks(ts));
    }
}

/// Round trip of the persisted representation: parsing the serialization of
/// any collection yields exactly that collection.
pub proof fn lemma_round_trip(ts: Seq<TaskView>)
    ensures
        parse_tasks_spec(json_of_tasks(ts)) == Some(ts),
{
    let s = json_of_tasks(ts);
    assert(s[0] == '[');
    if ts.len() == 0 {
        assert(json_items(ts) =~= Seq::<char>::empty());
        assert(s =~= seq!['[', ']']);
        assert(s.len() == 2 && s[1] == ']');
    } else {
        lemma_parse_items_json(ts);
        assert(json_items(ts).len() >= 10) by {
            assert(lit_title().len() == 10);
        }
        assert(s.drop_first() =~= json_items(ts) + seq![']']);
        assert(parse_tasks_spec(s) == Some(ts));
    }
}

} // verus!
