//! The JSON values that tools answer with.

use vstd::prelude::*;

use crate::lookup::count_below;
use crate::lookup::count_in;
use crate::lookup::last_below;
use crate::lookup::last_in;
use crate::lookup::only_in;
use crate::text::copy_of;
use crate::text::decimal;
use crate::text::decimal_string;
use crate::text::opt_text;
use crate::text::same_text;
use crate::text::texts;

verus! {

/// A JSON value. Members of an object keep the order they were added in.
#[derive(Debug)]
pub enum Json {
    Null,
    Bool(bool),
    Num(u64),
    Str(String),
    Arr(Vec<Json>),
    Obj(Vec<(String, Json)>),
}

/// What a JSON value is.
pub enum JsonView {
    Null,
    Bool(bool),
    Num(nat),
    Str(Seq<char>),
    Arr(Seq<JsonView>),
    Obj(Seq<(Seq<char>, JsonView)>),
}

impl View for Json {
    type V = JsonView;

    open spec fn view(&self) -> JsonView {
        json_view(*self)
    }
}

/// The mathematical value of a JSON value.
pub open spec fn json_view(j: Json) -> JsonView
    decreases j,
{
    match j {
        Json::Null => JsonView::Null,
        Json::Bool(b) => JsonView::Bool(b),
        Json::Num(n) => JsonView::Num(n as nat),
        Json::Str(s) => JsonView::Str(s@),
        Json::Arr(v) => JsonView::Arr(
            Seq::new(
                v@.len(),
                |i: int|
                    if 0 <= i < v@.len() {
                        json_view(v@[i])
                    } else {
                        JsonView::Null
                    },
            ),
        ),
        Json::Obj(v) => JsonView::Obj(
            Seq::new(
                v@.len(),
                |i: int|
                    if 0 <= i < v@.len() {
                        (v@[i].0@, json_view(v@[i].1))
                    } else {
                        (Seq::empty(), JsonView::Null)
                    },
            ),
        ),
    }
}

/// The values of a list of JSON values.
pub open spec fn item_views(v: Seq<Json>) -> Seq<JsonView> {
    v.map_values(|j: Json| j@)
}

/// The values of the members of an object.
pub open spec fn member_views(v: Seq<(String, Json)>) -> Seq<(Seq<char>, JsonView)> {
    v.map_values(|m: (String, Json)| (m.0@, m.1@))
}

/// An array holds the values of its items.
pub proof fn lemma_arr_view(v: Vec<Json>)
    ensures
        Json::Arr(v)@ == JsonView::Arr(item_views(v@)),
{
    let whole = json_view(Json::Arr(v));
    assert(whole->Arr_0 =~= item_views(v@));
}

/// An object holds the values of its members.
pub proof fn lemma_obj_view(v: Vec<(String, Json)>)
    ensures
        Json::Obj(v)@ == JsonView::Obj(member_views(v@)),
{
    let whole = json_view(Json::Obj(v));
    assert(whole->Obj_0 =~= member_views(v@));
}

// ---------------------------------------------------------------------------
// Building
// ---------------------------------------------------------------------------

/// A JSON string.
pub fn json_str(s: &str) -> (j: Json)
    ensures
        j@ == JsonView::Str(s@),
{
    Json::Str(copy_of(s))
}

/// A JSON array of strings.
pub fn json_strings(v: &Vec<String>) -> (j: Json)
    ensures
        j@ == strings_view(texts(v@)),
{
    let mut items: Vec<Json> = Vec::new();
    let mut i: usize = 0;
    while i < v.len()
        invariant
            i <= v@.len(),
            item_views(items@) =~= texts(v@).take(i as int).map_values(
                |t: Seq<char>| JsonView::Str(t),
            ),
        decreases v@.len() - i,
    {
        let ghost before = item_views(items@);
        let item = json_str(v[i].as_str());
        items.push(item);
        proof {
            assert(item_views(items@) =~= before.push(item@));
        }
        i += 1;
    }
    proof {
        let all = texts(v@);
        assert(all.take(all.len() as int) =~= all);
        lemma_arr_view(items);
    }
    Json::Arr(items)
}

/// The array of a list of texts.
pub open spec fn strings_view(v: Seq<Seq<char>>) -> JsonView {
    JsonView::Arr(v.map_values(|t: Seq<char>| JsonView::Str(t)))
}

/// The array of a list of numbers.
pub open spec fn numbers_view(v: Seq<u32>) -> JsonView {
    JsonView::Arr(v.map_values(|n: u32| JsonView::Num(n as nat)))
}

/// A JSON array of numbers.
pub fn json_numbers(v: &[u32]) -> (j: Json)
    ensures
        j@ == numbers_view(v@),
{
    let mut items: Vec<Json> = Vec::new();
    let mut i: usize = 0;
    while i < v.len()
        invariant
            i <= v@.len(),
            item_views(items@) =~= v@.take(i as int).map_values(|n: u32| JsonView::Num(n as nat)),
        decreases v@.len() - i,
    {
        let ghost before = item_views(items@);
        let item = Json::Num(v[i] as u64);
        items.push(item);
        proof {
            assert(item_views(items@) =~= before.push(item@));
        }
        i += 1;
    }
    proof {
        assert(v@.take(v@.len() as int) =~= v@);
        lemma_arr_view(items);
    }
    Json::Arr(items)
}

/// A text, or null where there is none.
pub open spec fn str_or_null(o: Option<Seq<char>>) -> JsonView {
    match o {
        Some(t) => JsonView::Str(t),
        None => JsonView::Null,
    }
}

/// A text member where there is a text, and none where there is not.
pub open spec fn opt_member(key: Seq<char>, o: Option<Seq<char>>) -> Seq<(Seq<char>, JsonView)> {
    match o {
        Some(t) => seq![(key, JsonView::Str(t))],
        None => Seq::empty(),
    }
}

/// A member that is there only under a condition.
pub open spec fn member_if(cond: bool, key: Seq<char>, value: JsonView) -> Seq<
    (Seq<char>, JsonView),
> {
    if cond {
        seq![(key, value)]
    } else {
        Seq::empty()
    }
}

/// An object under construction.
#[derive(Debug)]
pub struct Members {
    entries: Vec<(String, Json)>,
}

impl View for Members {
    type V = Seq<(Seq<char>, JsonView)>;

    closed spec fn view(&self) -> Seq<(Seq<char>, JsonView)> {
        member_views(self.entries@)
    }
}

impl Members {
    /// An object without members.
    pub fn new() -> (m: Members)
        ensures
            m@ == Seq::<(Seq<char>, JsonView)>::empty(),
    {
        let m = Members { entries: Vec::new() };
        proof {
            assert(m@ =~= Seq::<(Seq<char>, JsonView)>::empty());
        }
        m
    }

    /// Adds a member behind the others.
    pub fn put(&mut self, key: &str, value: Json)
        ensures
            final(self)@ == old(self)@.push((key@, value@)),
    {
        let ghost before = self.entries@;
        let k = copy_of(key);
        self.entries.push((k, value));
        proof {
            assert(member_views(self.entries@) =~= member_views(before).push((key@, value@)));
        }
    }

    /// Adds a text member behind the others.
    pub fn put_str(&mut self, key: &str, value: &str)
        ensures
            final(self)@ == old(self)@.push((key@, JsonView::Str(value@))),
    {
        self.put(key, json_str(value));
    }

    /// Adds a number member behind the others.
    pub fn put_num(&mut self, key: &str, value: u64)
        ensures
            final(self)@ == old(self)@.push((key@, JsonView::Num(value as nat))),
    {
        self.put(key, Json::Num(value));
    }

    /// Adds a truth value behind the others.
    pub fn put_bool(&mut self, key: &str, value: bool)
        ensures
            final(self)@ == old(self)@.push((key@, JsonView::Bool(value))),
    {
        self.put(key, Json::Bool(value));
    }

    /// Adds a text member if there is a text.
    pub fn put_opt_str(&mut self, key: &str, value: &Option<String>)
        ensures
            final(self)@ == old(self)@ + opt_member(key@, opt_text(*value)),
    {
        let ghost before = self@;
        match value {
            Some(s) => {
                self.put_str(key, s.as_str());
            },
            None => {},
        }
        proof {
            assert(self@ =~= before + opt_member(key@, opt_text(*value)));
        }
    }

    /// Adds a text member, null where there is no text.
    pub fn put_str_or_null(&mut self, key: &str, value: &Option<String>)
        ensures
            final(self)@ == old(self)@.push((key@, str_or_null(opt_text(*value)))),
    {
        match value {
            Some(s) => {
                self.put_str(key, s.as_str());
            },
            None => {
                self.put(key, Json::Null);
            },
        }
    }

    /// The finished object.
    pub fn done(self) -> (j: Json)
        ensures
            j@ == JsonView::Obj(self@),
    {
        proof {
            lemma_obj_view(self.entries);
        }
        Json::Obj(self.entries)
    }
}

// ---------------------------------------------------------------------------
// Members of an object
// ---------------------------------------------------------------------------

/// The position of the first member with a key, if there is one.
pub open spec fn member_index(m: Seq<(Seq<char>, JsonView)>, key: Seq<char>) -> Option<int>
    decreases m.len(),
{
    if m.len() == 0 {
        None
    } else {
        match member_index(m.drop_last(), key) {
            Some(i) => Some(i),
            None => if m.last().0 == key {
                Some(m.len() - 1)
            } else {
                None
            },
        }
    }
}

/// The members with one of them set: replaced where the key is there, added at
/// the end where it is not.
pub open spec fn with_member(
    m: Seq<(Seq<char>, JsonView)>,
    key: Seq<char>,
    value: JsonView,
) -> Seq<(Seq<char>, JsonView)> {
    match member_index(m, key) {
        Some(i) => m.update(i, (key, value)),
        None => m.push((key, value)),
    }
}

proof fn lemma_member_index(m: Seq<(Seq<char>, JsonView)>, key: Seq<char>)
    ensures
        match member_index(m, key) {
            Some(i) => 0 <= i < m.len() && m[i].0 == key && forall|j: int|
                0 <= j < i ==> (#[trigger] m[j]).0 != key,
            None => forall|j: int| 0 <= j < m.len() ==> (#[trigger] m[j]).0 != key,
        },
    decreases m.len(),
{
    if m.len() > 0 {
        let init = m.drop_last();
        lemma_member_index(init, key);
        assert forall|j: int| 0 <= j < init.len() implies #[trigger] m[j] == init[j] by {}
    }
}

impl Json {
    /// The value of a member of an object; nothing for a missing key or a value
    /// that is no object.
    pub fn get(&self, key: &str) -> (found: Option<&Json>)
        ensures
            match self@ {
                JsonView::Obj(m) => match member_index(m, key@) {
                    Some(i) => found is Some && found->0@ == m[i].1,
                    None => found is None,
                },
                _ => found is None,
            },
    {
        match self {
            Json::Obj(v) => {
                let ghost views = member_views(v@);
                proof {
                    lemma_obj_view(*v);
                    lemma_member_index(views, key@);
                }
                let mut i: usize = 0;
                while i < v.len()
                    invariant
                        i <= v@.len(),
                        views == member_views(v@),
                        self@ == JsonView::Obj(views),
                        forall|j: int| 0 <= j < i ==> (#[trigger] views[j]).0 != key@,
                    decreases v@.len() - i,
                {
                    assert(views[i as int] == (v@[i as int].0@, v@[i as int].1@));
                    if same_text(v[i].0.as_str(), key) {
                        proof {
                            lemma_member_index(views, key@);
                        }
                        return Some(&v[i].1);
                    }
                    i += 1;
                }
                None
            },
            _ => None,
        }
    }

    /// Sets a member of an object; leaves a value that is no object alone.
    pub fn set(&mut self, key: &str, value: Json)
        ensures
            final(self)@ == match old(self)@ {
                JsonView::Obj(m) => JsonView::Obj(with_member(m, key@, value@)),
                other => other,
            },
    {
        match self {
            Json::Obj(v) => {
                let ghost views = member_views(v@);
                let ghost start = v@;
                proof {
                    lemma_obj_view(*v);
                    lemma_member_index(views, key@);
                }
                let mut i: usize = 0;
                while i < v.len() && !same_text(v[i].0.as_str(), key)
                    invariant
                        i <= v@.len(),
                        v@ == start,
                        views == member_views(v@),
                        forall|j: int| 0 <= j < i ==> (#[trigger] views[j]).0 != key@,
                    decreases v@.len() - i,
                {
                    assert(views[i as int] == (v@[i as int].0@, v@[i as int].1@));
                    i += 1;
                }
                let k = copy_of(key);
                if i < v.len() {
                    proof {
                        assert(views[i as int] == (v@[i as int].0@, v@[i as int].1@));
                    }
                    v.set(i, (k, value));
                    proof {
                        assert(member_views(v@) =~= views.update(i as int, (key@, value@)));
                        lemma_obj_view(*v);
                    }
                } else {
                    v.push((k, value));
                    proof {
                        assert(member_views(v@) =~= views.push((key@, value@)));
                        lemma_obj_view(*v);
                    }
                }
            },
            _ => {},
        }
    }
}

// ---------------------------------------------------------------------------
// Text
// ---------------------------------------------------------------------------

/// A digit of base 16, in lower case.
pub open spec fn low_hex_digit(d: int) -> char {
    if d < 10 {
        ('0' as u32 + d) as char
    } else {
        ('a' as u32 + (d - 10)) as char
    }
}

/// A character inside a JSON string: quote, backslash and the controls of ASCII
/// are escaped, the common ones by a letter.
pub open spec fn json_char(c: char) -> Seq<char> {
    let n = c as u32;
    if c == '"' {
        seq!['\\', '"']
    } else if c == '\\' {
        seq!['\\', '\\']
    } else if n == 0x8 {
        seq!['\\', 'b']
    } else if n == 0x9 {
        seq!['\\', 't']
    } else if n == 0xa {
        seq!['\\', 'n']
    } else if n == 0xc {
        seq!['\\', 'f']
    } else if n == 0xd {
        seq!['\\', 'r']
    } else if n < 0x20 {
        seq!['\\', 'u', '0', '0', low_hex_digit(n as int / 16), low_hex_digit(n as int % 16)]
    } else {
        seq![c]
    }
}

/// A text as a JSON string, quoted and escaped.
pub open spec fn json_string_text(s: Seq<char>) -> Seq<char> {
    seq!['"'] + s.flat_map(|c: char| json_char(c)) + seq!['"']
}

/// `serde_json::to_string` of a string: the text between quotes, with quotes,
/// backslashes and the controls of ASCII escaped.
#[verifier::external_body]
pub(crate) fn quoted(s: &str) -> (out: String)
    ensures
        out@ == json_string_text(s@),
{
    serde_json::to_string(s).unwrap_or_default()
}

/// A JSON value as compact JSON text.
pub open spec fn json_text(v: JsonView) -> Seq<char>
    decreases v, 0nat,
{
    match v {
        JsonView::Null => "null"@,
        JsonView::Bool(b) => if b {
            "true"@
        } else {
            "false"@
        },
        JsonView::Num(n) => decimal(n),
        JsonView::Str(s) => json_string_text(s),
        JsonView::Arr(a) => "["@ + items_text(a, a.len()) + "]"@,
        JsonView::Obj(m) => "{"@ + members_text(m, m.len()) + "}"@,
    }
}

/// The first `n` items of an array as text, with commas between them.
pub open spec fn items_text(a: Seq<JsonView>, n: nat) -> Seq<char>
    decreases a, n,
{
    if n == 0 || n > a.len() {
        Seq::empty()
    } else if n == 1 {
        json_text(a[0])
    } else {
        items_text(a, (n - 1) as nat) + ","@ + json_text(a[n - 1])
    }
}

/// The first `n` members of an object as text, with commas between them.
pub open spec fn members_text(m: Seq<(Seq<char>, JsonView)>, n: nat) -> Seq<char>
    decreases m, n,
{
    if n == 0 || n > m.len() {
        Seq::empty()
    } else if n == 1 {
        json_string_text(m[0].0) + ":"@ + json_text(m[0].1)
    } else {
        members_text(m, (n - 1) as nat) + ","@ + (json_string_text(m[n - 1].0) + ":"@ + json_text(
            m[n - 1].1,
        ))
    }
}

impl Json {
    /// The value as compact JSON text.
    pub fn to_text(&self) -> (out: String)
        ensures
            out@ == json_text(self@),
        decreases self,
    {
        match self {
            Json::Null => copy_of("null"),
            Json::Bool(b) => {
                if *b {
                    copy_of("true")
                } else {
                    copy_of("false")
                }
            },
            Json::Num(n) => decimal_string(*n),
            Json::Str(s) => quoted(s.as_str()),
            Json::Arr(v) => {
                let ghost views = item_views(v@);
                proof {
                    lemma_arr_view(*v);
                }
                let mut out = copy_of("[");
                let mut i: usize = 0;
                proof {
                    assert("["@ + Seq::<char>::empty() =~= "["@);
                }
                while i < v.len()
                    invariant
                        i <= v@.len(),
                        *self == Json::Arr(*v),
                        views == item_views(v@),
                        out@ == "["@ + items_text(views, i as nat),
                    decreases v@.len() - i,
                {
                    let ghost before = out@;
                    proof {
                        assert(views[i as int] == v@[i as int]@);
                        assert(decreases_to!(*self => self->Arr_0));
                        assert(decreases_to!(*v => v[i as int]));
                    }
                    let item = v[i].to_text();
                    if i > 0 {
                        out.append(",");
                    }
                    out.append(item.as_str());
                    proof {
                        assert(out@ =~= "["@ + items_text(views, (i + 1) as nat));
                    }
                    i += 1;
                }
                out.append("]");
                out
            },
            Json::Obj(v) => {
                let ghost views = member_views(v@);
                proof {
                    lemma_obj_view(*v);
                }
                let mut out = copy_of("{");
                let mut i: usize = 0;
                proof {
                    assert("{"@ + Seq::<char>::empty() =~= "{"@);
                }
                while i < v.len()
                    invariant
                        i <= v@.len(),
                        *self == Json::Obj(*v),
                        views == member_views(v@),
                        out@ == "{"@ + members_text(views, i as nat),
                    decreases v@.len() - i,
                {
                    proof {
                        assert(views[i as int] == (v@[i as int].0@, v@[i as int].1@));
                        assert(decreases_to!(*self => self->Obj_0));
                        assert(decreases_to!(*v => v[i as int]));
                        assert(decreases_to!(v[i as int] => v[i as int].1));
                    }
                    let value = v[i].1.to_text();
                    if i > 0 {
                        out.append(",");
                    }
                    let key = quoted(v[i].0.as_str());
                    out.append(key.as_str());
                    out.append(":");
                    out.append(value.as_str());
                    proof {
                        assert(out@ =~= "{"@ + members_text(views, (i + 1) as nat));
                    }
                    i += 1;
                }
                out.append("}");
                out
            },
        }
    }
}

// ---------------------------------------------------------------------------
// Reading answers
// ---------------------------------------------------------------------------

/// The value that an object has under a key, where it has just one.
pub open spec fn value_under(j: JsonView, key: Seq<char>) -> Option<JsonView> {
    match j {
        JsonView::Obj(m) => only_in(m, key),
        _ => None,
    }
}

/// The text under a key; nothing where there is no text.
pub open spec fn text_under(j: JsonView, key: Seq<char>) -> Option<Seq<char>> {
    match value_under(j, key) {
        Some(JsonView::Str(t)) => Some(t),
        _ => None,
    }
}

/// The number under a key; nothing where there is no number.
pub open spec fn number_under(j: JsonView, key: Seq<char>) -> Option<nat> {
    match value_under(j, key) {
        Some(JsonView::Num(n)) => Some(n),
        _ => None,
    }
}

/// The truth value under a key; nothing where there is none.
pub open spec fn truth_under(j: JsonView, key: Seq<char>) -> Option<bool> {
    match value_under(j, key) {
        Some(JsonView::Bool(b)) => Some(b),
        _ => None,
    }
}

/// The items of the list under a key; nothing where there is no list.
pub open spec fn items_under(j: JsonView, key: Seq<char>) -> Option<Seq<JsonView>> {
    match value_under(j, key) {
        Some(JsonView::Arr(l)) => Some(l),
        _ => None,
    }
}

/// The texts of a list.
pub open spec fn texts_read(l: Seq<JsonView>) -> Seq<Seq<char>> {
    l.map_values(|j: JsonView| j->Str_0)
}

/// The texts of the list under a key; nothing where there is no list of texts.
pub open spec fn texts_under(j: JsonView, key: Seq<char>) -> Option<Seq<Seq<char>>> {
    match items_under(j, key) {
        Some(l) => if forall|i: int| 0 <= i < l.len() ==> (#[trigger] l[i]) is Str {
            Some(texts_read(l))
        } else {
            None
        },
        None => None,
    }
}

/// The numbers of the list under a key; nothing where there is no list of
/// numbers.
pub open spec fn numbers_under(j: JsonView, key: Seq<char>) -> Option<Seq<nat>> {
    match items_under(j, key) {
        Some(l) => if forall|i: int| 0 <= i < l.len() ==> (#[trigger] l[i]) is Num {
            Some(l.map_values(|j: JsonView| j->Num_0))
        } else {
            None
        },
        None => None,
    }
}

/// A text member stands under its own key.
pub broadcast proof fn count_of_opt_member(k: Seq<char>, o: Option<Seq<char>>, key: Seq<char>)
    ensures
        #[trigger] count_in(opt_member(k, o), key) == if k == key && o is Some {
            1nat
        } else {
            0nat
        },
{
    reveal(count_in);
    reveal_with_fuel(count_below, 2);
}

/// A text member holds its text.
pub broadcast proof fn last_of_opt_member(k: Seq<char>, o: Option<Seq<char>>, key: Seq<char>)
    ensures
        k == key && o is Some ==> #[trigger] last_in(opt_member(k, o), key) == Some(
            JsonView::Str(o->0),
        ),
{
    reveal(last_in);
    reveal_with_fuel(last_below, 2);
}

/// A member that is there under a condition stands under its own key.
pub broadcast proof fn count_of_member_if(cond: bool, k: Seq<char>, v: JsonView, key: Seq<char>)
    ensures
        #[trigger] count_in(member_if(cond, k, v), key) == if k == key && cond {
            1nat
        } else {
            0nat
        },
{
    reveal(count_in);
    reveal_with_fuel(count_below, 2);
}

/// A member that is there under a condition holds its value.
pub broadcast proof fn last_of_member_if(cond: bool, k: Seq<char>, v: JsonView, key: Seq<char>)
    ensures
        k == key && cond ==> #[trigger] last_in(member_if(cond, k, v), key) == Some(v),
{
    reveal(last_in);
    reveal_with_fuel(last_below, 2);
}

pub broadcast group group_answers {
    count_of_opt_member,
    last_of_opt_member,
    count_of_member_if,
    last_of_member_if,
}

/// A list of texts reads back.
pub proof fn lemma_texts_read(v: Seq<Seq<char>>)
    ensures
        texts_read(strings_view(v)->Arr_0) == v,
        forall|i: int| 0 <= i < v.len() ==> (#[trigger] strings_view(v)->Arr_0[i]) is Str,
{
    assert(texts_read(strings_view(v)->Arr_0) =~= v);
}

/// A list of numbers reads back.
pub proof fn lemma_numbers_read(v: Seq<u32>)
    ensures
        numbers_view(v)->Arr_0.map_values(|j: JsonView| j->Num_0) == v.map_values(|n: u32| n as nat),
        forall|i: int| 0 <= i < v.len() ==> (#[trigger] numbers_view(v)->Arr_0[i]) is Num,
{
    assert(numbers_view(v)->Arr_0.map_values(|j: JsonView| j->Num_0) =~= v.map_values(
        |n: u32| n as nat,
    ));
}

} // verus!
