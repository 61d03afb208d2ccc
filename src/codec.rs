//! The line-oriented text format that persists tasks: one line
//! `<id>, <description>, <done>` per task.
use vstd::prelude::*;
use crate::task::{TaskView, Todo};
use crate::text::{
    chars_of, find_char, index_of, is_space, lemma_index_of, lemma_index_of_bound,
    lemma_index_of_prefix, lemma_trim_after_space, lemma_trim_unpadded, trim, trim_bounds,
};

verus! {

/// Whether `c` is an ASCII decimal digit.
pub open spec fn is_digit(c: char) -> bool {
    48 <= c as u32 <= 57
}

/// The value of the digit `c`.
pub open spec fn digit_value(c: char) -> nat {
    (c as u32 - 48) as nat
}

/// The value of the decimal numeral `s`, most significant digit first.
pub open spec fn digits_value(s: Seq<char>) -> nat
    decreases s.len(),
{
    if s.len() == 0 {
        0
    } else {
        digits_value(s.drop_last()) * 10 + digit_value(s.last())
    }
}

/// `s` without one leading plus sign.
pub open spec fn unsigned_part(s: Seq<char>) -> Seq<char> {
    if s.len() > 0 && s[0] == '+' {
        s.drop_first()
    } else {
        s
    }
}

/// The identifier that the field `s` denotes: an optional `+` and one or more
/// decimal digits, of a value that leaves room for a successor in `usize`.
pub open spec fn parse_id(s: Seq<char>) -> Option<nat> {
    let d = unsigned_part(s);
    if d.len() > 0 && (forall|i: int| 0 <= i < d.len() ==> is_digit(#[trigger] d[i]))
        && digits_value(d) < usize::MAX {
        Some(digits_value(d))
    } else {
        None
    }
}

/// The literal `true`.
pub open spec fn true_text() -> Seq<char> {
    seq!['t', 'r', 'u', 'e']
}

/// The literal `false`.
pub open spec fn false_text() -> Seq<char> {
    seq!['f', 'a', 'l', 's', 'e']
}

/// The flag that the field `s` denotes: exactly `true` or `false`.
pub open spec fn parse_flag(s: Seq<char>) -> Option<bool> {
    if s == true_text() {
        Some(true)
    } else if s == false_text() {
        Some(false)
    } else {
        None
    }
}

/// The task that one line holds. The line is cut at its first two commas;
/// the three fields are trimmed; the first must be an identifier and the
/// third a flag.
pub open spec fn parse_line(line: Seq<char>) -> Option<TaskView> {
    let c1 = index_of(line, ',');
    if c1 < line.len() {
        let rest = line.subrange(c1 + 1 as int, line.len() as int);
        let c2 = index_of(rest, ',');
        if c2 < rest.len() {
            let id = parse_id(trim(line.subrange(0, c1 as int)));
            let done = parse_flag(trim(rest.subrange(c2 + 1 as int, rest.len() as int)));
            if id is Some && done is Some {
                Some(
                    TaskView {
                        id: id->0,
                        description: trim(rest.subrange(0, c2 as int)),
                        done: done->0,
                    },
                )
            } else {
                None
            }
        } else {
            None
        }
    } else {
        None
    }
}

/// The tasks that `text` holds: its lines are those between newlines, and
/// each line that does not hold a task is skipped.
pub open spec fn parse_text(text: Seq<char>) -> Seq<TaskView>
    decreases text.len(),
{
    if text.len() == 0 {
        seq![]
    } else {
        let n = index_of(text, '\n');
        let head = match parse_line(text.subrange(0, n as int)) {
            Some(t) => seq![t],
            None => seq![],
        };
        if n < text.len() {
            head + parse_text(text.subrange(n + 1 as int, text.len() as int))
        } else {
            head
        }
    }
}

/// The ten decimal digits, in order of value.
pub open spec fn digit_chars() -> Seq<char> {
    seq!['0', '1', '2', '3', '4', '5', '6', '7', '8', '9']
}

/// The decimal numeral of `n`, without leading zeros.
pub open spec fn decimal(n: nat) -> Seq<char>
    decreases n,
{
    if n < 10 {
        seq![digit_chars()[n as int]]
    } else {
        decimal(n / 10).push(digit_chars()[(n % 10) as int])
    }
}

/// The separator between two fields of a line.
pub open spec fn separator() -> Seq<char> {
    seq![',', ' ']
}

/// The literal that stands for a flag.
pub open spec fn flag_text(b: bool) -> Seq<char> {
    if b {
        true_text()
    } else {
        false_text()
    }
}

/// The line that stores `t`, newline included: `<id>, <description>, <done>`.
pub open spec fn record(t: TaskView) -> Seq<char> {
    decimal(t.id) + separator() + t.description + separator() + flag_text(t.done) + seq!['\n']
}

/// The text that stores the tasks `s`: one line each, in order.
pub open spec fn text_of(s: Seq<TaskView>) -> Seq<char>
    decreases s.len(),
{
    if s.len() == 0 {
        seq![]
    } else {
        record(s[0]) + text_of(s.drop_first())
    }
}

/// Whether `t` is stored and read back unchanged: its identifier leaves room
/// for a successor, and its description holds no comma and no newline and
/// has no white space at either end.
pub open spec fn storable(t: TaskView) -> bool {
    &&& t.id < usize::MAX
    &&& forall|i: int|
        0 <= i < t.description.len() ==> #[trigger] t.description[i] != ',' && t.description[i]
            != '\n'
    &&& trim(t.description) == t.description
}

/// The identifier that the field `chars[lo..hi]` denotes.
fn parse_id_at(chars: &Vec<char>, lo: usize, hi: usize) -> (r: Option<usize>)
    requires
        lo <= hi <= chars.len(),
    ensures
        match r {
            Some(v) => parse_id(chars@.subrange(lo as int, hi as int)) == Some(v as nat),
            None => parse_id(chars@.subrange(lo as int, hi as int)) is None,
        },
{
    let ghost field = chars@.subrange(lo as int, hi as int);
    let mut start = lo;
    if start < hi && chars[start] == '+' {
        start = start + 1;
    }
    let ghost d = chars@.subrange(start as int, hi as int);
    assert(unsigned_part(field) =~= d);
    if start == hi {
        assert(d.len() == 0);
        return None;
    }
    let mut i = start;
    let mut v: usize = 0;
    while i < hi
        invariant
            start <= i <= hi <= chars.len(),
            d == chars@.subrange(start as int, hi as int),
            field == chars@.subrange(lo as int, hi as int),
            unsigned_part(field) == d,
            forall|j: int| start <= j < i ==> is_digit(chars@[j]),
            v as nat == digits_value(chars@.subrange(start as int, i as int)),
            v < usize::MAX,
        decreases hi - i,
    {
        let c = chars[i];
        let u = c as u32;
        let ghost next = chars@.subrange(start as int, i + 1);
        assert(next.drop_last() =~= chars@.subrange(start as int, i as int));
        if u < 48 || u > 57 {
            assert(d[i - start] == c);
            assert(!is_digit(d[i - start]));
            assert(parse_id(field) is None);
            return None;
        }
        let dv = (u - 48) as usize;
        let w = match v.checked_mul(10) {
            Some(m) => m.checked_add(dv),
            None => None,
        };
        match w {
            Some(w) if w < usize::MAX => {
                v = w;
            },
            _ => {
                proof {
                    if forall|j: int| 0 <= j < d.len() ==> is_digit(#[trigger] d[j]) {
                        lemma_digits_value_prefix(d, i + 1 - start);
                        assert(d.take(i + 1 - start) =~= next);
                    }
                }
                assert(parse_id(field) is None);
                return None;
            },
        }
        i = i + 1;
    }
    assert(d =~= chars@.subrange(start as int, i as int));
    Some(v)
}

/// The flag that the field `chars[lo..hi]` denotes.
fn parse_flag_at(chars: &Vec<char>, lo: usize, hi: usize) -> (r: Option<bool>)
    requires
        lo <= hi <= chars.len(),
    ensures
        r == parse_flag(chars@.subrange(lo as int, hi as int)),
{
    let ghost field = chars@.subrange(lo as int, hi as int);
    if hi - lo == 4 && chars[lo] == 't' && chars[lo + 1] == 'r' && chars[lo + 2] == 'u'
        && chars[lo + 3] == 'e' {
        assert(field =~= true_text());
        Some(true)
    } else if hi - lo == 5 && chars[lo] == 'f' && chars[lo + 1] == 'a' && chars[lo + 2] == 'l'
        && chars[lo + 3] == 's' && chars[lo + 4] == 'e' {
        assert(field =~= false_text());
        Some(false)
    } else {
        assert(field != true_text() && field != false_text()) by {
            assert(true_text().len() == 4 && false_text().len() == 5);
            if field == true_text() {
                assert(field[0] == 't' && field[1] == 'r' && field[2] == 'u' && field[3] == 'e');
            }
            if field == false_text() {
                assert(field[0] == 'f' && field[1] == 'a' && field[2] == 'l' && field[3] == 's'
                    && field[4] == 'e');
            }
        }
        None
    }
}

/// The task that the line `chars[lo..hi]` of `text` holds.
fn parse_line_at(text: &str, chars: &Vec<char>, lo: usize, hi: usize) -> (r: Option<Todo>)
    requires
        chars@ == text@,
        lo <= hi <= chars.len(),
    ensures
        match r {
            Some(t) => parse_line(chars@.subrange(lo as int, hi as int)) == Some(t@),
            None => parse_line(chars@.subrange(lo as int, hi as int)) is None,
        },
{
    let ghost line = chars@.subrange(lo as int, hi as int);
    let c1 = find_char(chars, lo, hi, ',');
    if c1 == hi {
        return None;
    }
    let ghost rest = line.subrange(c1 - lo + 1, line.len() as int);
    assert(rest =~= chars@.subrange(c1 + 1, hi as int));
    let c2 = find_char(chars, c1 + 1, hi, ',');
    if c2 == hi {
        return None;
    }
    assert(line.subrange(0, c1 - lo) =~= chars@.subrange(lo as int, c1 as int));
    assert(rest.subrange(0, c2 - c1 - 1) =~= chars@.subrange(c1 + 1, c2 as int));
    assert(rest.subrange(c2 - c1, rest.len() as int) =~= chars@.subrange(c2 + 1, hi as int));
    let (a0, b0) = trim_bounds(chars, lo, c1);
    let (a1, b1) = trim_bounds(chars, c1 + 1, c2);
    let (a2, b2) = trim_bounds(chars, c2 + 1, hi);
    let id = parse_id_at(chars, a0, b0);
    let done = parse_flag_at(chars, a2, b2);
    match (id, done) {
        (Some(id), Some(done)) => {
            let description = text.substring_char(a1, b1).to_owned();
            Some(Todo { id, description, done })
        },
        _ => None,
    }
}

/// The tasks that `text` holds, in the order of its lines; a line that does
/// not hold a task is skipped.
pub fn parse_tasks(text: &str) -> (r: Vec<Todo>)
    ensures
        r@.map_values(|t: Todo| t@) == parse_text(text@),
{
    let chars = chars_of(text);
    let len = chars.len();
    let mut out: Vec<Todo> = Vec::new();
    let mut start: usize = 0;
    assert(chars@.subrange(0, len as int) =~= text@);
    assert(out@.map_values(|t: Todo| t@) + parse_text(text@) =~= parse_text(text@));
    while start < len
        invariant
            chars@ == text@,
            len == chars.len(),
            start <= len,
            parse_text(text@) == out@.map_values(|t: Todo| t@) + parse_text(
                chars@.subrange(start as int, len as int),
            ),
        decreases len - start,
    {
        let ghost rest = chars@.subrange(start as int, len as int);
        let n = find_char(&chars, start, len, '\n');
        assert(rest.subrange(0, n - start) =~= chars@.subrange(start as int, n as int));
        let ghost before = out@.map_values(|t: Todo| t@);
        match parse_line_at(text, &chars, start, n) {
            Some(t) => {
                out.push(t);
                assert(out@.map_values(|t: Todo| t@) =~= before.push(t@));
            },
            None => {},
        }
        if n < len {
            assert(rest.subrange(n - start + 1, rest.len() as int) =~= chars@.subrange(
                n + 1,
                len as int,
            ));
            start = n + 1;
        } else {
            start = len;
        }
        assert(parse_text(text@) == out@.map_values(|t: Todo| t@) + parse_text(
            chars@.subrange(start as int, len as int),
        )) by {
            assert(chars@.subrange(start as int, len as int).len() == 0 ==> parse_text(
                chars@.subrange(start as int, len as int),
            ) =~= Seq::<TaskView>::empty());
            assert(before + parse_text(rest) =~= out@.map_values(|t: Todo| t@) + parse_text(
                chars@.subrange(start as int, len as int),
            ));
        }
    }
    assert(chars@.subrange(start as int, len as int).len() == 0);
    assert(out@.map_values(|t: Todo| t@) + Seq::<TaskView>::empty() =~= out@.map_values(
        |t: Todo| t@,
    ));
    out
}

/// Appends the decimal numeral of `n`.
fn push_decimal(out: &mut String, n: usize)
    ensures
        final(out)@ == old(out)@ + decimal(n as nat),
    decreases n,
{
    if n >= 10 {
        push_decimal(out, n / 10);
    }
    let d = n % 10;
    let digits = "0123456789";
    proof {
        reveal_strlit("0123456789");
        assert(digits@ =~= digit_chars());
    }
    let ghost before = out@;
    out.append(digits.substring_char(d, d + 1));
    proof {
        assert(digits@.subrange(d as int, d + 1) =~= seq![digit_chars()[d as int]]);
        if n >= 10 {
            assert(final(out)@ =~= old(out)@ + decimal(n as nat));
        } else {
            assert(final(out)@ =~= old(out)@ + decimal(n as nat));
        }
    }
}

/// The text that stores `tasks`: one line `<id>, <description>, <done>` each,
/// in order.
pub fn format_tasks(tasks: &Vec<Todo>) -> (r: String)
    ensures
        r@ == text_of(tasks@.map_values(|t: Todo| t@)),
{
    let ghost s = tasks@.map_values(|t: Todo| t@);
    let sep = ", ";
    let yes = "true";
    let no = "false";
    let newline = "\n";
    proof {
        reveal_strlit(", ");
        reveal_strlit("true");
        reveal_strlit("false");
        reveal_strlit("\n");
        assert(sep@ =~= separator());
        assert(yes@ =~= true_text());
        assert(no@ =~= false_text());
        assert(newline@ =~= seq!['\n']);
    }
    let mut out = String::new();
    let mut i: usize = 0;
    while i < tasks.len()
        invariant
            s == tasks@.map_values(|t: Todo| t@),
            i <= tasks.len(),
            out@ == text_of(s.take(i as int)),
            sep@ == separator(),
            yes@ == true_text(),
            no@ == false_text(),
            newline@ == seq!['\n'],
        decreases tasks.len() - i,
    {
        let t = &tasks[i];
        push_decimal(&mut out, t.id);
        out.append(sep);
        out.append(t.description.as_str());
        out.append(sep);
        if t.done {
            out.append(yes);
        } else {
            out.append(no);
        }
        out.append(newline);
        proof {
            lemma_text_of_append(s.take(i as int), seq![s[i as int]]);
            assert(s.take(i as int) + seq![s[i as int]] =~= s.take(i + 1));
            assert(text_of(seq![s[i as int]]) =~= record(s[i as int])) by {
                let one = seq![s[i as int]];
                assert(one.drop_first() =~= Seq::<TaskView>::empty());
                assert(text_of(one.drop_first()) =~= Seq::<char>::empty());
                assert(record(one[0]) + Seq::<char>::empty() =~= record(one[0]));
            }
            assert(out@ =~= text_of(s.take(i + 1)));
        }
        i = i + 1;
    }
    assert(s.take(i as int) =~= s);
    out
}

/// Reading back the text that stores storable tasks gives those tasks, in
/// the same order.
pub proof fn lemma_round_trip(s: Seq<TaskView>)
    requires
        forall|i: int| 0 <= i < s.len() ==> storable(#[trigger] s[i]),
    ensures
        parse_text(text_of(s)) == s,
    decreases s.len(),
{
    if s.len() == 0 {
        assert(parse_text(text_of(s)) =~= s);
    } else {
        let rest = s.drop_first();
        assert forall|i: int| 0 <= i < rest.len() implies storable(#[trigger] rest[i]) by {
            assert(rest[i] == s[i + 1]);
        }
        lemma_round_trip(rest);
        lemma_parse_record(s[0]);
        lemma_parse_text_append(record(s[0]), text_of(rest));
        assert(seq![s[0]] + rest =~= s);
    }
}

/// A line that holds no task, set among stored tasks, is skipped: reading
/// gives exactly the tasks around it.
pub proof fn lemma_bad_line_skipped(
    before: Seq<TaskView>,
    bad: Seq<char>,
    after: Seq<TaskView>,
)
    requires
        forall|i: int| 0 <= i < before.len() ==> storable(#[trigger] before[i]),
        forall|i: int| 0 <= i < after.len() ==> storable(#[trigger] after[i]),
        forall|i: int| 0 <= i < bad.len() ==> #[trigger] bad[i] != '\n',
        parse_line(bad) is None,
    ensures
        parse_text(text_of(before) + bad.push('\n') + text_of(after)) == before + after,
{
    let line = bad.push('\n');
    lemma_round_trip(before);
    lemma_round_trip(after);
    lemma_text_of_ends_line(before);
    lemma_parse_text_append(text_of(before), line + text_of(after));
    lemma_parse_text_append(line, text_of(after));
    lemma_index_of(line, '\n', bad.len() as int);
    assert(line.subrange(0, bad.len() as int) =~= bad);
    assert(line.subrange(bad.len() + 1 as int, line.len() as int) =~= Seq::<char>::empty());
    assert(parse_text(line.subrange(bad.len() + 1 as int, line.len() as int)) =~= Seq::<
        TaskView,
    >::empty());
    assert(parse_text(line) =~= Seq::<TaskView>::empty());
    assert(text_of(before) + bad.push('\n') + text_of(after) =~= text_of(before) + (line
        + text_of(after)));
    assert(before + Seq::<TaskView>::empty() + after =~= before + after);
}

/// Reading a text that ends a line (or is empty) and then another reads
/// each in turn.
pub proof fn lemma_parse_text_append(x: Seq<char>, y: Seq<char>)
    requires
        x.len() == 0 || x.last() == '\n',
    ensures
        parse_text(x + y) == parse_text(x) + parse_text(y),
    decreases x.len(),
{
    if x.len() == 0 {
        assert(x + y =~= y);
        assert(parse_text(x) + parse_text(y) =~= parse_text(y));
    } else {
        let n = index_of(x, '\n');
        lemma_index_of_bound(x, '\n');
        let xy = x + y;
        lemma_index_of_prefix(x, y, '\n');
        let x2 = x.subrange(n + 1 as int, x.len() as int);
        assert(xy.subrange(0, n as int) =~= x.subrange(0, n as int));
        assert(xy.subrange(n + 1 as int, xy.len() as int) =~= x2 + y);
        lemma_parse_text_append(x2, y);
        let head = match parse_line(x.subrange(0, n as int)) {
            Some(t) => seq![t],
            None => seq![],
        };
        assert(head + (parse_text(x2) + parse_text(y)) =~= head + parse_text(x2) + parse_text(y));
    }
}

/// Storing two runs of tasks one after the other stores their concatenation.
pub proof fn lemma_text_of_append(a: Seq<TaskView>, b: Seq<TaskView>)
    ensures
        text_of(a + b) == text_of(a) + text_of(b),
    decreases a.len(),
{
    if a.len() == 0 {
        assert(a + b =~= b);
        assert(text_of(a) + text_of(b) =~= text_of(b));
    } else {
        lemma_text_of_append(a.drop_first(), b);
        assert((a + b).drop_first() =~= a.drop_first() + b);
        assert(text_of(a + b) =~= text_of(a) + text_of(b));
    }
}

/// Every identifier that a text yields leaves room for a successor.
pub proof fn lemma_parse_text_ids(text: Seq<char>)
    ensures
        forall|j: int|
            0 <= j < parse_text(text).len() ==> #[trigger] parse_text(text)[j].id < usize::MAX,
    decreases text.len(),
{
    if text.len() > 0 {
        let n = index_of(text, '\n');
        let p = parse_line(text.subrange(0, n as int));
        let head = match p {
            Some(t) => seq![t],
            None => seq![],
        };
        if n < text.len() {
            let tail = text.subrange(n + 1 as int, text.len() as int);
            lemma_parse_text_ids(tail);
            assert forall|j: int| 0 <= j < parse_text(text).len() implies #[trigger] parse_text(
                text,
            )[j].id < usize::MAX by {
                if j >= head.len() {
                    assert(parse_text(text)[j] == parse_text(tail)[j - head.len()]);
                }
            }
        }
    }
}

/// The line that stores a storable task reads back as that task alone.
#[verifier::rlimit(40)]
proof fn lemma_parse_record(t: TaskView)
    requires
        storable(t),
    ensures
        parse_text(record(t)) == seq![t],
{
    lemma_decimal(t.id);
    let d = decimal(t.id);
    let desc = t.description;
    let f = flag_text(t.done);
    let sep = separator();
    let sp = seq![' '];
    assert(f.len() > 0 && !is_space(f[0]) && !is_space(f.last())) by {
        if t.done {
            assert(f =~= true_text());
        } else {
            assert(f =~= false_text());
        }
    }
    assert(forall|j: int| 0 <= j < f.len() ==> #[trigger] f[j] != '\n') by {
        if t.done {
            assert(f =~= true_text());
        } else {
            assert(f =~= false_text());
        }
    }
    let body = d + sep + desc + sep + f;
    let rec = record(t);
    assert(rec =~= body.push('\n'));
    // the line ends at the newline that closes the record
    assert forall|j: int| 0 <= j < body.len() implies rec[j] != '\n' by {
        if j < d.len() {
            assert(rec[j] == d[j]);
        } else if j < d.len() + 2 {
        } else if j < d.len() + 2 + desc.len() {
            assert(rec[j] == desc[j - d.len() - 2]);
        } else if j < d.len() + 4 + desc.len() {
        } else {
            assert(rec[j] == f[j - d.len() - 4 - desc.len()]);
        }
    }
    lemma_index_of(rec, '\n', body.len() as int);
    assert(rec.subrange(0, body.len() as int) =~= body);
    assert(rec.subrange(body.len() + 1 as int, rec.len() as int) =~= Seq::<char>::empty());
    // the first comma follows the numeral
    assert forall|j: int| 0 <= j < d.len() implies body[j] != ',' by {
        assert(body[j] == d[j]);
    }
    lemma_index_of(body, ',', d.len() as int);
    let rest = body.subrange(d.len() + 1 as int, body.len() as int);
    assert(rest =~= sp + desc + sep + f);
    // the second comma follows the description
    assert forall|j: int| 0 <= j < 1 + desc.len() implies rest[j] != ',' by {
        if j > 0 {
            assert(rest[j] == desc[j - 1]);
        }
    }
    lemma_index_of(rest, ',', 1 + desc.len() as int);
    // the three fields
    assert(body.subrange(0, d.len() as int) =~= d);
    assert(rest.subrange(0, 1 + desc.len() as int) =~= sp + desc);
    assert(rest.subrange(2 + desc.len() as int, rest.len() as int) =~= sp + f);
    lemma_trim_unpadded(d);
    lemma_trim_unpadded(f);
    lemma_trim_after_space(desc);
    lemma_trim_after_space(f);
    assert(unsigned_part(d) == d);
    assert(parse_id(d) == Some(t.id));
    assert(parse_flag(f) == Some(t.done)) by {
        if !t.done {
            assert(f.len() != true_text().len());
        }
    }
    assert(parse_line(body) == Some(t));
    assert(parse_text(rec.subrange(body.len() + 1 as int, rec.len() as int)) =~= Seq::<
        TaskView,
    >::empty());
    assert(parse_text(rec) =~= seq![t]);
}

/// The text that stores tasks is empty or ends a line.
proof fn lemma_text_of_ends_line(s: Seq<TaskView>)
    ensures
        text_of(s).len() == 0 || text_of(s).last() == '\n',
    decreases s.len(),
{
    if s.len() > 0 {
        lemma_text_of_ends_line(s.drop_first());
    }
}

/// Each of the ten digits is a digit character whose value is its index.
proof fn lemma_digit_chars()
    ensures
        forall|d: int|
            0 <= d < 10 ==> is_digit(#[trigger] digit_chars()[d]) && digit_value(digit_chars()[d])
                == d,
{
    assert(digit_chars()[0] == '0');
    assert(digit_chars()[1] == '1');
    assert(digit_chars()[2] == '2');
    assert(digit_chars()[3] == '3');
    assert(digit_chars()[4] == '4');
    assert(digit_chars()[5] == '5');
    assert(digit_chars()[6] == '6');
    assert(digit_chars()[7] == '7');
    assert(digit_chars()[8] == '8');
    assert(digit_chars()[9] == '9');
}

/// The numeral of `n` is a non-empty run of digits of value `n`.
proof fn lemma_decimal(n: nat)
    ensures
        decimal(n).len() > 0,
        forall|i: int| 0 <= i < decimal(n).len() ==> is_digit(#[trigger] decimal(n)[i]),
        digits_value(decimal(n)) == n,
    decreases n,
{
    lemma_digit_chars();
    if n < 10 {
        let d = decimal(n);
        assert(d.drop_last() =~= Seq::<char>::empty());
        assert(d.last() == digit_chars()[n as int]);
        assert(digit_value(digit_chars()[n as int]) == n);
        assert(digits_value(d) == digits_value(d.drop_last()) * 10 + digit_value(d.last()));
    } else {
        lemma_decimal(n / 10);
        let d = decimal(n);
        assert(d.drop_last() =~= decimal(n / 10));
        assert(d.last() == digit_chars()[(n % 10) as int]);
        assert(n == (n / 10) * 10 + n % 10);
        assert(digit_value(digit_chars()[(n % 10) as int]) == n % 10);
        assert(digits_value(d) == digits_value(d.drop_last()) * 10 + digit_value(d.last()));
        assert forall|i: int| 0 <= i < d.len() implies is_digit(#[trigger] d[i]) by {
            if i < d.len() - 1 {
                assert(d[i] == decimal(n / 10)[i]);
            }
        }
    }
}

/// The value of a numeral is at least that of each of its prefixes.
proof fn lemma_digits_value_prefix(s: Seq<char>, k: int)
    requires
        0 <= k <= s.len(),
    ensures
        digits_value(s.take(k)) <= digits_value(s),
    decreases s.len(),
{
    if k < s.len() {
        let t = s.drop_last();
        lemma_digits_value_prefix(t, k);
        assert(t.take(k) =~= s.take(k));
    } else {
        assert(s.take(k) =~= s);
    }
}

} // verus!
