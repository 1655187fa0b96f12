//! What a reader of JSON makes of the text of an answer.

use vstd::prelude::*;

use crate::imap_client::query::lemma_decimal_reads_back;
use crate::json::items_text;
use crate::json::json_char;
use crate::json::json_string_text;
use crate::json::json_text;
use crate::json::low_hex_digit;
use crate::json::members_text;
use crate::json::JsonView;
use crate::text::decimal;
use crate::text::digit_value;
use crate::text::digits_value;

verus! {

// ---------------------------------------------------------------------------
// Reading
// ---------------------------------------------------------------------------

/// The character that a letter behind a backslash stands for.
pub open spec fn escaped_char(c: char) -> Option<char> {
    if c == '"' || c == '\\' || c == '/' {
        Some(c)
    } else if c == 'b' {
        Some('\u{8}')
    } else if c == 't' {
        Some('\t')
    } else if c == 'n' {
        Some('\n')
    } else if c == 'f' {
        Some('\u{c}')
    } else if c == 'r' {
        Some('\r')
    } else {
        None
    }
}

/// A character in front of a text that was read.
pub open spec fn in_front(c: char, read: Option<(Seq<char>, Seq<char>)>) -> Option<
    (Seq<char>, Seq<char>),
> {
    match read {
        Some((s, r)) => Some((seq![c] + s, r)),
        None => None,
    }
}

/// The text up to the closing quote, and what stands behind it.
pub open spec fn read_chars(t: Seq<char>) -> Option<(Seq<char>, Seq<char>)>
    decreases t.len(),
{
    if t.len() == 0 {
        None
    } else if t[0] == '"' {
        Some((Seq::empty(), t.skip(1)))
    } else if t[0] != '\\' {
        in_front(t[0], read_chars(t.skip(1)))
    } else if t.len() >= 6 && t[1] == 'u' {
        match digits_value(t.subrange(2, 6), 16) {
            Some(n) => in_front(n as char, read_chars(t.skip(6))),
            None => None,
        }
    } else if t.len() >= 2 && escaped_char(t[1]) is Some {
        in_front(escaped_char(t[1])->0, read_chars(t.skip(2)))
    } else {
        None
    }
}

/// Where the digits end that a text begins with.
pub open spec fn digits_end(t: Seq<char>, i: int) -> int
    decreases t.len() - i,
{
    if 0 <= i < t.len() && '0' <= t[i] <= '9' {
        digits_end(t, i + 1)
    } else {
        i
    }
}

/// The value that a text begins with, and what stands behind it.
pub open spec fn read_value(t: Seq<char>) -> Option<(JsonView, Seq<char>)>
    decreases t.len(), 0nat,
{
    if t.len() == 0 {
        None
    } else if t[0] == '"' {
        match read_chars(t.skip(1)) {
            Some((s, r)) => Some((JsonView::Str(s), r)),
            None => None,
        }
    } else if '0' <= t[0] <= '9' {
        let k = digits_end(t, 0);
        match digits_value(t.take(k), 10) {
            Some(n) => Some((JsonView::Num(n), t.skip(k))),
            None => None,
        }
    } else if t.len() >= 4 && t.take(4) == seq!['t', 'r', 'u', 'e'] {
        Some((JsonView::Bool(true), t.skip(4)))
    } else if t.len() >= 5 && t.take(5) == seq!['f', 'a', 'l', 's', 'e'] {
        Some((JsonView::Bool(false), t.skip(5)))
    } else if t.len() >= 4 && t.take(4) == seq!['n', 'u', 'l', 'l'] {
        Some((JsonView::Null, t.skip(4)))
    } else if t[0] == '[' {
        if t.len() > 1 && t[1] == ']' {
            Some((JsonView::Arr(Seq::empty()), t.skip(2)))
        } else {
            match read_items(t.skip(1)) {
                Some((l, r)) => Some((JsonView::Arr(l), r)),
                None => None,
            }
        }
    } else if t[0] == '{' {
        if t.len() > 1 && t[1] == '}' {
            Some((JsonView::Obj(Seq::empty()), t.skip(2)))
        } else {
            match read_members(t.skip(1)) {
                Some((m, r)) => Some((JsonView::Obj(m), r)),
                None => None,
            }
        }
    } else {
        None
    }
}

/// The items of a list up to its closing bracket, and what stands behind it.
pub open spec fn read_items(t: Seq<char>) -> Option<(Seq<JsonView>, Seq<char>)>
    decreases t.len(), 1nat,
{
    match read_value(t) {
        Some((v, r)) => if r.len() == 0 || r.len() >= t.len() {
            None
        } else if r[0] == ']' {
            Some((seq![v], r.skip(1)))
        } else if r[0] == ',' {
            match read_items(r.skip(1)) {
                Some((l, rest)) => Some((seq![v] + l, rest)),
                None => None,
            }
        } else {
            None
        },
        None => None,
    }
}

/// The members of an object up to its closing brace, and what stands behind it.
pub open spec fn read_members(t: Seq<char>) -> Option<(Seq<(Seq<char>, JsonView)>, Seq<char>)>
    decreases t.len(), 1nat,
{
    if t.len() == 0 || t[0] != '"' {
        None
    } else {
        match read_chars(t.skip(1)) {
            Some((k, r)) => if r.len() == 0 || r.len() >= t.len() || r[0] != ':' {
                None
            } else {
                match read_value(r.skip(1)) {
                    Some((v, r)) => if r.len() == 0 || r.len() >= t.len() {
                        None
                    } else if r[0] == '}' {
                        Some((seq![(k, v)], r.skip(1)))
                    } else if r[0] == ',' {
                        match read_members(r.skip(1)) {
                            Some((m, rest)) => Some((seq![(k, v)] + m, rest)),
                            None => None,
                        }
                    } else {
                        None
                    },
                    None => None,
                }
            },
            None => None,
        }
    }
}

// ---------------------------------------------------------------------------
// Texts
// ---------------------------------------------------------------------------

proof fn lemma_hex_digit(d: int)
    requires
        0 <= d < 16,
    ensures
        digit_value(low_hex_digit(d), 16) == Some(d as nat),
{
}

proof fn lemma_small_escape(n: int, t: Seq<char>)
    requires
        0 <= n < 32,
        t == seq!['0', '0', low_hex_digit(n / 16), low_hex_digit(n % 16)],
    ensures
        digits_value(t, 16) == Some(n as nat),
{
    lemma_hex_digit(0);
    lemma_hex_digit(n / 16);
    lemma_hex_digit(n % 16);
    reveal_with_fuel(digits_value, 5);
    let a = t.drop_last();
    let b = a.drop_last();
    let c = b.drop_last();
    assert(t.last() == low_hex_digit(n % 16));
    assert(a.last() == low_hex_digit(n / 16));
    assert(b.last() == '0');
    assert(c.last() == '0');
    assert(c.drop_last() =~= Seq::<char>::empty());
    assert(digits_value(c, 16) == Some(0nat));
    assert(digits_value(b, 16) == Some(0nat));
    assert(digits_value(a, 16) == Some((n / 16) as nat));
    assert((n / 16) * 16 + n % 16 == n);
}

proof fn lemma_char_reads_back(c: char, r: Seq<char>)
    ensures
        read_chars(json_char(c) + r) == in_front(c, read_chars(r)),
{
    let e = json_char(c);
    let t = e + r;
    let n = c as u32;
    assert(e.len() > 0);
    assert(t.skip(e.len() as int) =~= r);
    assert(t[0] == e[0]);
    if e.len() == 6 {
        let four = t.subrange(2, 6);
        assert(four =~= seq![
            '0',
            '0',
            low_hex_digit(n as int / 16),
            low_hex_digit(n as int % 16),
        ]);
        lemma_small_escape(n as int, four);
        assert(t[1] == 'u');
        assert((n as nat) as char == c);
    } else if e.len() == 2 {
        assert(t[1] == e[1]);
    } else {
        assert(e == seq![c]);
    }
}

proof fn lemma_chars_read_back(s: Seq<char>, r: Seq<char>)
    ensures
        read_chars(s.flat_map(|c: char| json_char(c)) + seq!['"'] + r) == Some((s, r)),
    decreases s.len(),
{
    let f = |c: char| json_char(c);
    let text = s.flat_map(f);
    let whole = text + seq!['"'] + r;
    if s.len() == 0 {
        assert(text =~= Seq::<char>::empty());
        assert(whole[0] == '"');
        assert(whole.skip(1) =~= r);
        assert(s =~= Seq::<char>::empty());
    } else {
        let rest = s.drop_first();
        let mapped = s.map_values(f);
        assert(mapped.drop_first() =~= rest.map_values(f));
        assert(text =~= json_char(s[0]) + rest.flat_map(f));
        lemma_chars_read_back(rest, r);
        let after = rest.flat_map(f) + seq!['"'] + r;
        assert(whole =~= json_char(s[0]) + after);
        lemma_char_reads_back(s[0], after);
        assert(seq![s[0]] + rest =~= s);
    }
}

/// A reader of JSON finds in a text between quotes the text that was written.
pub proof fn written_texts_read_back(s: Seq<char>, r: Seq<char>)
    ensures
        read_value(json_string_text(s) + r) == Some((JsonView::Str(s), r)),
{
    let text = s.flat_map(|c: char| json_char(c));
    let t = json_string_text(s) + r;
    assert(t[0] == '"');
    assert(t.skip(1) =~= text + seq!['"'] + r);
    lemma_chars_read_back(s, r);
}

proof fn lemma_digits_end(a: Seq<char>, r: Seq<char>, i: int)
    requires
        0 <= i <= a.len(),
        forall|k: int| 0 <= k < a.len() ==> '0' <= #[trigger] a[k] <= '9',
        r.len() > 0 ==> !('0' <= r[0] <= '9'),
    ensures
        digits_end(a + r, i) == a.len(),
    decreases a.len() - i,
{
    let t = a + r;
    if i < a.len() {
        assert(t[i] == a[i]);
        lemma_digits_end(a, r, i + 1);
    } else if r.len() > 0 {
        assert(t[i] == r[0]);
    }
}

proof fn lemma_number_reads_back(n: nat, r: Seq<char>)
    requires
        r.len() > 0 ==> !('0' <= r[0] <= '9'),
    ensures
        read_value(decimal(n) + r) == Some((JsonView::Num(n), r)),
{
    let d = decimal(n);
    let t = d + r;
    lemma_decimal_reads_back(n);
    lemma_digits_end(d, r, 0);
    assert(t[0] == d[0]);
    assert(t.take(d.len() as int) =~= d);
    assert(t.skip(d.len() as int) =~= r);
}

// ---------------------------------------------------------------------------
// Lists and objects
// ---------------------------------------------------------------------------

/// The items from one on as text, with commas between them.
spec fn items_rest(a: Seq<JsonView>, i: int) -> Seq<char>
    decreases a.len() - i,
{
    if i < 0 || i >= a.len() {
        Seq::empty()
    } else if i == a.len() - 1 {
        json_text(a[i])
    } else {
        json_text(a[i]) + seq![','] + items_rest(a, i + 1)
    }
}

proof fn lemma_items_rest(a: Seq<JsonView>, k: int)
    requires
        0 < k < a.len(),
    ensures
        items_text(a, a.len()) == items_text(a, k as nat) + seq![','] + items_rest(a, k),
    decreases a.len() - k,
{
    reveal_strlit(",");
    assert(","@ =~= seq![',']);
    if k == a.len() - 1 {
        assert(items_text(a, a.len()) == items_text(a, k as nat) + ","@ + json_text(a[k]));
    } else {
        lemma_items_rest(a, k + 1);
        let head = items_text(a, k as nat);
        let own = json_text(a[k]);
        let rest = items_rest(a, k + 1);
        assert(items_text(a, (k + 1) as nat) == head + ","@ + own);
        assert(head + ","@ + own + seq![','] + rest =~= head + seq![','] + (own + seq![','] + rest));
    }
}

/// The members from one on as text, with commas between them.
spec fn members_rest(m: Seq<(Seq<char>, JsonView)>, i: int) -> Seq<char>
    decreases m.len() - i,
{
    if i < 0 || i >= m.len() {
        Seq::empty()
    } else if i == m.len() - 1 {
        member_text(m[i])
    } else {
        member_text(m[i]) + seq![','] + members_rest(m, i + 1)
    }
}

spec fn member_text(p: (Seq<char>, JsonView)) -> Seq<char> {
    json_string_text(p.0) + seq![':'] + json_text(p.1)
}

proof fn lemma_members_rest(m: Seq<(Seq<char>, JsonView)>, k: int)
    requires
        0 < k < m.len(),
    ensures
        members_text(m, m.len()) == members_text(m, k as nat) + seq![','] + members_rest(m, k),
    decreases m.len() - k,
{
    reveal_strlit(",");
    reveal_strlit(":");
    assert(","@ =~= seq![',']);
    assert(":"@ =~= seq![':']);
    if k == m.len() - 1 {
        assert(members_text(m, m.len()) == members_text(m, k as nat) + ","@ + member_text(m[k]));
    } else {
        lemma_members_rest(m, k + 1);
        let head = members_text(m, k as nat);
        let own = member_text(m[k]);
        let rest = members_rest(m, k + 1);
        assert(members_text(m, (k + 1) as nat) == head + ","@ + own);
        assert(head + ","@ + own + seq![','] + rest =~= head + seq![','] + (own + seq![','] + rest));
    }
}

proof fn lemma_items_read_back(a: Seq<JsonView>, i: int, r: Seq<char>)
    requires
        0 <= i < a.len(),
    ensures
        read_items(items_rest(a, i) + seq![']'] + r) == Some((a.skip(i), r)),
    decreases a, a.len() - i,
{
    let own = json_text(a[i]);
    let t = items_rest(a, i) + seq![']'] + r;
    if i == a.len() - 1 {
        let after = seq![']'] + r;
        assert(t =~= own + after);
        lemma_value_reads_back(a[i], after);
        assert(after[0] == ']');
        assert(after.skip(1) =~= r);
        assert(a.skip(i) =~= seq![a[i]]);
    } else {
        let rest = items_rest(a, i + 1) + seq![']'] + r;
        let after = seq![','] + rest;
        assert(t =~= own + after);
        lemma_value_reads_back(a[i], after);
        assert(after[0] == ',');
        assert(after.skip(1) =~= rest);
        lemma_items_read_back(a, i + 1, r);
        assert(a.skip(i) =~= seq![a[i]] + a.skip(i + 1));
    }
}

/// What stands behind the value of a member.
spec fn behind_member(m: Seq<(Seq<char>, JsonView)>, i: int, r: Seq<char>) -> Seq<char> {
    if i == m.len() - 1 {
        seq!['}'] + r
    } else {
        seq![','] + (members_rest(m, i + 1) + seq!['}'] + r)
    }
}

proof fn lemma_member_shape(m: Seq<(Seq<char>, JsonView)>, i: int, r: Seq<char>)
    requires
        0 <= i < m.len(),
    ensures
        ({
            let t = members_rest(m, i) + seq!['}'] + r;
            let key = m[i].0.flat_map(|c: char| json_char(c));
            let value = seq![':'] + (json_text(m[i].1) + behind_member(m, i, r));
            &&& t.len() > 0
            &&& t[0] == '"'
            &&& t.skip(1) == key + seq!['"'] + value
        }),
{
    let t = members_rest(m, i) + seq!['}'] + r;
    let key = m[i].0.flat_map(|c: char| json_char(c));
    let own = json_text(m[i].1);
    let after = behind_member(m, i, r);
    if i == m.len() - 1 {
        assert(t =~= member_text(m[i]) + after);
    } else {
        assert(t =~= member_text(m[i]) + after);
    }
    assert(member_text(m[i]) =~= seq!['"'] + key + seq!['"'] + seq![':'] + own);
    assert(t.skip(1) =~= key + seq!['"'] + (seq![':'] + (own + after)));
}

proof fn lemma_member_read(
    t: Seq<char>,
    k: Seq<char>,
    v: JsonView,
    own: Seq<char>,
    after: Seq<char>,
)
    requires
        t.len() > own.len() + after.len() + 1,
        t[0] == '"',
        read_chars(t.skip(1)) == Some((k, seq![':'] + (own + after))),
        read_value(own + after) == Some((v, after)),
        after.len() > 0,
    ensures
        after[0] == '}' ==> read_members(t) == Some((seq![(k, v)], after.skip(1))),
        after[0] == ',' ==> read_members(t) == match read_members(after.skip(1)) {
            Some((m, rest)) => Some((seq![(k, v)] + m, rest)),
            None => None,
        },
{
    let value = seq![':'] + (own + after);
    assert(value[0] == ':');
    assert(value.skip(1) =~= own + after);
}

proof fn lemma_members_read_back(m: Seq<(Seq<char>, JsonView)>, i: int, r: Seq<char>)
    requires
        0 <= i < m.len(),
    ensures
        read_members(members_rest(m, i) + seq!['}'] + r) == Some((m.skip(i), r)),
    decreases m, m.len() - i,
{
    let t = members_rest(m, i) + seq!['}'] + r;
    let own = json_text(m[i].1);
    let after = behind_member(m, i, r);
    let value = seq![':'] + (own + after);
    lemma_member_shape(m, i, r);
    lemma_chars_read_back(m[i].0, value);
    assert(decreases_to!(m => m[i]));
    assert(decreases_to!(m[i] => m[i].1));
    assert(after[0] == if i == m.len() - 1 {
        '}'
    } else {
        ','
    });
    lemma_value_reads_back(m[i].1, after);
    lemma_member_read(t, m[i].0, m[i].1, own, after);
    if i == m.len() - 1 {
        assert(after.skip(1) =~= r);
        assert(m.skip(i) =~= seq![(m[i].0, m[i].1)]);
    } else {
        assert(after.skip(1) =~= members_rest(m, i + 1) + seq!['}'] + r);
        lemma_members_read_back(m, i + 1, r);
        assert(m.skip(i) =~= seq![(m[i].0, m[i].1)] + m.skip(i + 1));
    }
}

proof fn lemma_other_words(t: Seq<char>)
    requires
        t.len() > 0,
    ensures
        t.len() >= 4 && t.take(4) == seq!['t', 'r', 'u', 'e'] ==> t[0] == 't',
        t.len() >= 5 && t.take(5) == seq!['f', 'a', 'l', 's', 'e'] ==> t[0] == 'f',
        t.len() >= 4 && t.take(4) == seq!['n', 'u', 'l', 'l'] ==> t[0] == 'n',
{
    if t.len() >= 4 {
        assert(t.take(4)[0] == t[0]);
    }
    if t.len() >= 5 {
        assert(t.take(5)[0] == t[0]);
    }
}

proof fn lemma_words_read_back(r: Seq<char>)
    ensures
        read_value("null"@ + r) == Some((JsonView::Null, r)),
        read_value("true"@ + r) == Some((JsonView::Bool(true), r)),
        read_value("false"@ + r) == Some((JsonView::Bool(false), r)),
        "null"@.len() > 0 && "null"@[0] == 'n',
        "true"@.len() > 0 && "true"@[0] == 't',
        "false"@.len() > 0 && "false"@[0] == 'f',
{
    reveal_strlit("null");
    reveal_strlit("true");
    reveal_strlit("false");
    let n = "null"@ + r;
    let t = "true"@ + r;
    let f = "false"@ + r;
    lemma_other_words(n);
    lemma_other_words(t);
    lemma_other_words(f);
    assert(n.take(4) =~= seq!['n', 'u', 'l', 'l']);
    assert(n.skip(4) =~= r);
    assert(t.take(4) =~= seq!['t', 'r', 'u', 'e']);
    assert(t.skip(4) =~= r);
    assert(f.take(5) =~= seq!['f', 'a', 'l', 's', 'e']);
    assert(f.skip(5) =~= r);
}

proof fn lemma_list_shape(a: Seq<JsonView>, r: Seq<char>)
    ensures
        ({
            let text = json_text(JsonView::Arr(a));
            let t = text + r;
            &&& text.len() > 1 && text[0] == '['
            &&& t.len() > 1 && t[0] == '['
            &&& a.len() == 0 ==> t[1] == ']' && t.skip(2) == r
            &&& a.len() > 0 ==> t.skip(1) == items_rest(a, 0) + seq![']'] + r
        }),
{
    reveal_strlit("[");
    reveal_strlit("]");
    assert("["@ =~= seq!['['] && "]"@ =~= seq![']']);
    let t = json_text(JsonView::Arr(a)) + r;
    let items = items_text(a, a.len());
    assert(json_text(JsonView::Arr(a)) == "["@ + items + "]"@);
    if a.len() == 0 {
        assert(t.skip(2) =~= r);
    } else {
        if a.len() > 1 {
            lemma_items_rest(a, 1);
        }
        assert(items =~= items_rest(a, 0));
        assert(t.skip(1) =~= items + seq![']'] + r);
    }
}

proof fn lemma_object_shape(m: Seq<(Seq<char>, JsonView)>, r: Seq<char>)
    ensures
        ({
            let text = json_text(JsonView::Obj(m));
            let t = text + r;
            &&& text.len() > 1 && text[0] == '{'
            &&& t.len() > 1 && t[0] == '{'
            &&& m.len() == 0 ==> t[1] == '}' && t.skip(2) == r
            &&& m.len() > 0 ==> t.skip(1) == members_rest(m, 0) + seq!['}'] + r && t[1] == '"'
        }),
{
    reveal_strlit("{");
    reveal_strlit("}");
    reveal_strlit(":");
    assert("{"@ =~= seq!['{'] && "}"@ =~= seq!['}'] && ":"@ =~= seq![':']);
    let t = json_text(JsonView::Obj(m)) + r;
    let members = members_text(m, m.len());
    assert(json_text(JsonView::Obj(m)) == "{"@ + members + "}"@);
    if m.len() == 0 {
        assert(t.skip(2) =~= r);
    } else {
        if m.len() > 1 {
            lemma_members_rest(m, 1);
        }
        assert(members =~= members_rest(m, 0));
        assert(t.skip(1) =~= members + seq!['}'] + r);
        lemma_member_shape(m, 0, r);
        assert(t[1] == t.skip(1)[0]);
    }
}

proof fn lemma_value_reads_back(v: JsonView, r: Seq<char>)
    requires
        r.len() > 0 ==> !('0' <= r[0] <= '9'),
    ensures
        read_value(json_text(v) + r) == Some((v, r)),
        json_text(v).len() > 0,
        json_text(v)[0] != ']' && json_text(v)[0] != '}',
    decreases v, 0int,
{
    let t = json_text(v) + r;
    match v {
        JsonView::Null => {
            lemma_words_read_back(r);
        },
        JsonView::Bool(b) => {
            lemma_words_read_back(r);
        },
        JsonView::Num(n) => {
            lemma_number_reads_back(n, r);
            lemma_decimal_reads_back(n);
            assert('0' <= decimal(n)[0] <= '9');
        },
        JsonView::Str(s) => {
            written_texts_read_back(s, r);
        },
        JsonView::Arr(a) => {
            lemma_list_shape(a, r);
            lemma_other_words(t);
            if a.len() == 0 {
                assert(a =~= Seq::<JsonView>::empty());
            } else {
                assert(decreases_to!(v => v->Arr_0));
                lemma_items_read_back(a, 0, r);
                lemma_value_reads_back(a[0], seq![',']);
                assert(items_rest(a, 0)[0] == json_text(a[0])[0]);
                assert(t[1] == t.skip(1)[0]);
                assert(a.skip(0) =~= a);
            }
        },
        JsonView::Obj(m) => {
            lemma_object_shape(m, r);
            lemma_other_words(t);
            if m.len() == 0 {
                assert(m =~= Seq::<(Seq<char>, JsonView)>::empty());
            } else {
                assert(decreases_to!(v => v->Obj_0));
                lemma_members_read_back(m, 0, r);
                assert(m.skip(0) =~= m);
            }
        },
    }
}

/// The text of an answer reads back: a reader of JSON finds in it the value that
/// was written, with every member, item, text, number and truth value in its place,
/// and nothing behind it.
pub proof fn answers_read_back(v: JsonView)
    ensures
        read_value(json_text(v)) == Some((v, Seq::<char>::empty())),
{
    lemma_value_reads_back(v, Seq::empty());
    assert(json_text(v) + Seq::<char>::empty() =~= json_text(v));
}

} // verus!
