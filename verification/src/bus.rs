//! The automation bus: requests from scripts that are handed to the web view, and the
//! replies that come back.
//!
//! A request gets a number, and an entry under that number waits for its reply. The entry
//! is gone once the request has ended, in whatever way.

use crate::text;
use crate::text_laws;
use std::collections::HashMap;
use vstd::prelude::*;
use vstd::string::StringExecFns;

verus! {

// ── JSON strings ────────────────────────────────────────────────────────────────

/// The character of a hexadecimal digit.
pub open spec fn hex_digit(d: int) -> char {
    if d < 10 {
        (48 + d) as u8 as char
    } else {
        (87 + d) as u8 as char
    }
}

/// A character as it stands in a JSON string.
pub open spec fn json_char(c: char) -> Seq<char> {
    let v = c as u32 as int;
    if c == '"' {
        seq!['\\', '"']
    } else if c == '\\' {
        seq!['\\', '\\']
    } else if c == '\u{8}' {
        seq!['\\', 'b']
    } else if c == '\t' {
        seq!['\\', 't']
    } else if c == '\n' {
        seq!['\\', 'n']
    } else if c == '\u{c}' {
        seq!['\\', 'f']
    } else if c == '\r' {
        seq!['\\', 'r']
    } else if v <= 0x1F {
        seq!['\\', 'u', '0', '0', hex_digit(v / 16), hex_digit(v % 16)]
    } else {
        seq![c]
    }
}

/// The characters of a text as they stand in a JSON string.
pub open spec fn json_chars(s: Seq<char>) -> Seq<char>
    decreases s.len(),
{
    if s.len() == 0 {
        Seq::empty()
    } else {
        json_chars(s.drop_last()) + json_char(s.last())
    }
}

/// A text as a JSON string.
pub open spec fn json_text(s: Seq<char>) -> Seq<char> {
    seq!['"'] + json_chars(s) + seq!['"']
}

/// `serde_json::to_string` of a string puts it in quotes, with a backslash before quotes
/// and backslashes and with escapes for the control characters below the space. It does
/// not fail on strings.
#[verifier::external_body]
fn json_string(s: &str) -> (r: Option<String>)
    ensures
        r is Some,
        r->0@ == json_text(s@),
{
    serde_json::to_string(s).ok()
}

// ── requests ────────────────────────────────────────────────────────────────────

/// A request to the web view: its kind, the name of what is asked for, and its arguments
/// as JSON.
#[derive(Debug)]
pub struct Request {
    pub kind: &'static str,
    pub name: String,
    pub args: String,
}

/// A request of a kind, by its name and its arguments.
pub open spec fn is_request(
    r: Request,
    kind: Seq<char>,
    name: Seq<char>,
    args: Seq<char>,
) -> bool {
    &&& r.kind@ == kind
    &&& r.name@ == name
    &&& r.args@ == args
}

/// The request to run the verb `verb` with arguments, given as JSON.
pub fn call_request(verb: &str, args: &str) -> (r: Request)
    ensures
        is_request(r, "call"@, verb@, args@),
{
    Request { kind: "call", name: verb.to_owned(), args: args.to_owned() }
}

/// The request for the state named `state`.
pub fn get_request(state: &str) -> (r: Request)
    ensures
        is_request(r, "get"@, state@, "{}"@),
{
    Request { kind: "get", name: state.to_owned(), args: "{}".to_owned() }
}

/// The request for all that the web view offers.
pub fn surface_request() -> (r: Request)
    ensures
        is_request(r, "verbs"@, ""@, "{}"@),
{
    Request { kind: "verbs", name: "".to_owned(), args: "{}".to_owned() }
}

/// The script that hands a request to the web view.
pub open spec fn script_of(id: u64, kind: Seq<char>, name: Seq<char>, args: Seq<char>) -> Seq<
    char,
> {
    "window.__zguiBridgeDispatch&&window.__zguiBridgeDispatch("@ + text::decimal(id as nat)
        + seq![','] + json_text(kind) + seq![','] + json_text(name) + seq![','] + args + seq![')']
}

/// The script that hands a request to the web view.
pub fn dispatch_script(id: u64, request: &Request) -> (js: String)
    ensures
        js@ == script_of(id, request.kind@, request.name@, request.args@),
{
    let kind = match json_string(request.kind) {
        Some(s) => s,
        None => "\"call\"".to_owned(),
    };
    let name = match json_string(request.name.as_str()) {
        Some(s) => s,
        None => "\"\"".to_owned(),
    };
    let mut js = "window.__zguiBridgeDispatch&&window.__zguiBridgeDispatch(".to_owned();
    js.append(text::decimal_text(id).as_str());
    js.push(',');
    js.append(kind.as_str());
    js.push(',');
    js.append(name.as_str());
    js.push(',');
    js.append(request.args.as_str());
    js.push(')');
    assert(js@ =~= script_of(id, request.kind@, request.name@, request.args@));
    js
}

// ── waiting requests ────────────────────────────────────────────────────────────

/// The requests that wait for a reply, each with what its reply goes to.
pub struct Pending<T> {
    entries: HashMap<u64, T>,
    next_id: u64,
}

impl<T> View for Pending<T> {
    type V = Map<u64, T>;

    closed spec fn view(&self) -> Map<u64, T> {
        self.entries@
    }
}

impl<T> Pending<T> {
    /// The number that the next request gets.
    pub closed spec fn next(&self) -> u64 {
        self.next_id
    }

    /// Every request that waits has a number that was given out: from one on, and before
    /// the next.
    pub open spec fn is_valid(&self) -> bool {
        &&& self.next() >= 1
        &&& forall|id: u64| #[trigger] self@.dom().contains(id) ==> 1 <= id < self.next()
    }

    /// No request waits, and none ever did.
    pub open spec fn is_new(&self) -> bool {
        &&& self@ == Map::<u64, T>::empty()
        &&& self.next() == 1
        &&& self.is_valid()
    }

    /// No request waits.
    pub fn new() -> (r: Pending<T>)
        ensures
            r.is_new(),
    {
        broadcast use vstd::std_specs::hash::group_hash_axioms;

        Pending { entries: HashMap::new(), next_id: 1 }
    }

    /// Whether a number is left for another request.
    pub fn has_room(&self) -> (r: bool)
        ensures
            r == (self.next() < u64::MAX),
    {
        self.next_id < u64::MAX
    }

    /// A request came to wait under the number `id`.
    pub open spec fn is_opened(before: Pending<T>, entry: T, id: u64, after: Pending<T>) -> bool {
        &&& id == before.next()
        &&& !before@.dom().contains(id)
        &&& after@ == before@.insert(id, entry)
        &&& after.next() == id + 1
        &&& after.is_valid()
    }

    /// Let a request wait, under a number that no other has.
    pub fn open(&mut self, entry: T) -> (id: u64)
        requires
            old(self).is_valid(),
            old(self).next() < u64::MAX,
        ensures
            Self::is_opened(*old(self), entry, id, *final(self)),
    {
        broadcast use vstd::std_specs::hash::group_hash_axioms;

        let id: u64 = self.next_id;
        self.entries.insert(id, entry);
        self.next_id = id + 1;
        id
    }

    /// Request `id` no longer waits; `r` is what its reply goes to, if it still did.
    pub open spec fn is_taken(before: Pending<T>, id: u64, r: Option<T>, after: Pending<T>) -> bool {
        &&& match r {
            Some(entry) => before@.dom().contains(id) && entry == before@[id],
            None => !before@.dom().contains(id),
        }
        &&& after@ == before@.remove(id)
        &&& after.next() == before.next()
        &&& after.is_valid()
    }

    /// What the reply to request `id` goes to, if the request still waits. It does no
    /// longer.
    pub fn take(&mut self, id: u64) -> (r: Option<T>)
        requires
            old(self).is_valid(),
        ensures
            Self::is_taken(*old(self), id, r, *final(self)),
    {
        broadcast use vstd::std_specs::hash::group_hash_axioms;

        let r = self.entries.remove(&id);
        assert(self@ =~= old(self)@.remove(id));
        r
    }
}

// ── the course of a request ─────────────────────────────────────────────────────

/// A request that is under way: its number, and the script to be run in the web view.
#[derive(Debug)]
pub struct Dispatch {
    pub id: u64,
    pub script: String,
}

/// A request has begun, or was refused for want of a web view.
pub open spec fn is_begun<T>(
    before: Pending<T>,
    has_window: bool,
    request: Request,
    entry: T,
    r: Result<Dispatch, String>,
    after: Pending<T>,
) -> bool {
    &&& match r {
        Ok(d) => {
            &&& has_window
            &&& d.id == before.next()
            &&& d.script@ == script_of(d.id, request.kind@, request.name@, request.args@)
            &&& after@ == before@.insert(d.id, entry)
            &&& after.next() == d.id + 1
        },
        Err(e) => {
            &&& !has_window
            &&& e@ == "no main webview"@
            &&& after == before
        },
    }
    &&& after.is_valid()
}

/// Begin a request. There must be a web view to hand it to; `entry` is what the reply goes
/// to.
pub fn begin_forward<T>(
    pending: &mut Pending<T>,
    has_window: bool,
    request: &Request,
    entry: T,
) -> (r: Result<Dispatch, String>)
    requires
        old(pending).is_valid(),
        old(pending).next() < u64::MAX,
    ensures
        is_begun(*old(pending), has_window, *request, entry, r, *final(pending)),
{
    if !has_window {
        return Err("no main webview".to_owned());
    }
    let id: u64 = pending.open(entry);
    Ok(Dispatch { id, script: dispatch_script(id, request) })
}

/// Request `id` waits on, or was given up because its script did not run.
pub open spec fn is_after_eval<T>(
    before: Pending<T>,
    id: u64,
    eval: Result<(), String>,
    r: Result<(), String>,
    after: Pending<T>,
) -> bool {
    &&& match (r, eval) {
        (Ok(_), Ok(_)) => after == before,
        (Err(message), Err(e)) => message@ == "eval failed: "@ + e@ && after@ == before@.remove(id)
            && after.next() == before.next(),
        _ => false,
    }
    &&& after.is_valid()
}

/// Go on with request `id` once its script was to be run: wait for the reply, or give up
/// where that failed.
pub fn after_eval<T>(pending: &mut Pending<T>, id: u64, eval: Result<(), String>) -> (r: Result<
    (),
    String,
>)
    requires
        old(pending).is_valid(),
    ensures
        is_after_eval(*old(pending), id, eval, r, *final(pending)),
{
    match eval {
        Ok(_) => Ok(()),
        Err(e) => {
            let _ = pending.take(id);
            let mut message = "eval failed: ".to_owned();
            message.append(e.as_str());
            Err(message)
        },
    }
}

/// Request `id` has ended, with the reply that came or with none in time.
pub open spec fn is_after_wait<T, V>(
    before: Pending<T>,
    id: u64,
    reply: Option<Result<V, String>>,
    r: Result<V, String>,
    after: Pending<T>,
) -> bool {
    &&& match reply {
        Some(reply) => r == reply,
        None => r is Err && r->Err_0@ == "webview did not reply"@,
    }
    &&& after@ == before@.remove(id)
    &&& after.next() == before.next()
    &&& after.is_valid()
}

/// End request `id`, with the reply that came or with none in time.
pub fn after_wait<T, V>(
    pending: &mut Pending<T>,
    id: u64,
    reply: Option<Result<V, String>>,
) -> (r: Result<V, String>)
    requires
        old(pending).is_valid(),
    ensures
        is_after_wait(*old(pending), id, reply, r, *final(pending)),
{
    let _ = pending.take(id);
    match reply {
        Some(reply) => reply,
        None => Err("webview did not reply".to_owned()),
    }
}

/// What the web view's report of a request means.
pub open spec fn is_report<V>(
    ok: bool,
    value: Option<V>,
    null: V,
    error: Option<String>,
    r: Result<V, String>,
) -> bool {
    match r {
        Ok(v) => ok && v == (match value {
            Some(v) => v,
            None => null,
        }),
        Err(e) => !ok && e@ == (match error {
            Some(e) => e@,
            None => "webview verb failed"@,
        }),
    }
}

/// What the web view's report of a request means: its value, or `null` where it gives
/// none, if all went well; else what went wrong.
pub fn reply_result<V>(ok: bool, value: Option<V>, null: V, error: Option<String>) -> (r: Result<
    V,
    String,
>)
    ensures
        is_report(ok, value, null, error, r),
{
    if ok {
        match value {
            Some(v) => Ok(v),
            None => Ok(null),
        }
    } else {
        match error {
            Some(e) => Err(e),
            None => Err("webview verb failed".to_owned()),
        }
    }
}

// ── what the web view offers ────────────────────────────────────────────────────

/// A field of the web view's answer.
#[derive(Debug)]
pub enum WebField<T> {
    Array(Vec<T>),
    Other,
}

/// The web view's answer to the question what it offers: an object with named fields, or
/// something else.
#[derive(Debug)]
pub enum WebReply<T> {
    Object(Vec<(String, WebField<T>)>),
    Other,
}

/// All that scripts can use.
#[derive(Debug)]
pub struct Surface<T> {
    pub app: String,
    pub verbs: Vec<T>,
    pub state: Vec<T>,
    pub events: Vec<T>,
}

/// The first field of a name that holds an array; nothing where the first field of that
/// name holds none, or there is no such field.
pub open spec fn array_named<T>(fields: Seq<(String, WebField<T>)>, name: Seq<char>) -> Seq<T>
    decreases fields.len(),
{
    if fields.len() == 0 {
        Seq::empty()
    } else if fields[0].0@ == name {
        match fields[0].1 {
            WebField::Array(items) => items@,
            WebField::Other => Seq::empty(),
        }
    } else {
        array_named(fields.drop_first(), name)
    }
}

/// What the web view offers under a name.
pub open spec fn offered<T>(reply: Result<WebReply<T>, String>, name: Seq<char>) -> Seq<T> {
    match reply {
        Ok(WebReply::Object(fields)) => array_named(fields@, name),
        _ => Seq::empty(),
    }
}

/// Take the array out of the first field named `name`.
fn take_array<T>(fields: &mut Vec<(String, WebField<T>)>, name: &str) -> (r: Vec<T>)
    ensures
        r@ == array_named(old(fields)@, name@),
        forall|other: Seq<char>|
            other != name@ ==> #[trigger] array_named(final(fields)@, other) == array_named(
                old(fields)@,
                other,
            ),
{
    let mut i: usize = 0;
    assert(fields@.skip(0) =~= fields@);
    while i < fields.len()
        invariant
            fields@ == old(fields)@,
            i <= fields@.len(),
            array_named(fields@, name@) == array_named(fields@.skip(i as int), name@),
        decreases fields@.len() - i,
    {
        assert(fields@.skip(i as int).drop_first() =~= fields@.skip(i + 1));
        if text::same_text(fields[i].0.as_str(), name) {
            let ghost before = fields@;
            let (_, field) = fields.remove(i);
            proof {
                assert forall|other: Seq<char>| other != name@ implies #[trigger] array_named(
                    fields@,
                    other,
                ) == array_named(before, other) by {
                    lemma_remove_field(before, i as int, other);
                }
            }
            return match field {
                WebField::Array(items) => items,
                WebField::Other => Vec::new(),
            };
        }
        i += 1;
    }
    assert(fields@.skip(i as int) =~= Seq::empty());
    Vec::new()
}

/// Taking a field out does not change what is under another name.
proof fn lemma_remove_field<T>(fields: Seq<(String, WebField<T>)>, i: int, other: Seq<char>)
    requires
        0 <= i < fields.len(),
        fields[i].0@ != other,
    ensures
        array_named(fields.remove(i), other) == array_named(fields, other),
    decreases i,
{
    let after = fields.remove(i);
    if i == 0 {
        assert(after =~= fields.drop_first());
    } else {
        lemma_remove_field(fields.drop_first(), i - 1, other);
        assert(after.drop_first() =~= fields.drop_first().remove(i - 1));
        assert(after[0] == fields[0]);
    }
}

/// All that scripts can use, from the web view's answer.
pub open spec fn is_surface<T>(reply: Result<WebReply<T>, String>, r: Surface<T>) -> bool {
    &&& r.app@ == "zemacs-gui"@
    &&& r.verbs@ == offered(reply, "verbs"@)
    &&& r.state@ == offered(reply, "state"@)
    &&& r.events@ == offered(reply, "events"@)
}

/// All that scripts can use, from the web view's answer. Where there is none, nothing is
/// offered, but the answer is still whole.
pub fn surface<T>(reply: Result<WebReply<T>, String>) -> (r: Surface<T>)
    ensures
        is_surface(reply, r),
{
    let mut fields: Vec<(String, WebField<T>)> = match reply {
        Ok(WebReply::Object(fields)) => fields,
        Ok(WebReply::Other) => Vec::new(),
        Err(_) => Vec::new(),
    };
    proof {
        reveal_strlit("verbs");
        reveal_strlit("state");
        reveal_strlit("events");
        assert("verbs"@[0] == 'v');
        assert("state"@[0] == 's');
        assert("events"@[0] == 'e');
    }
    let verbs = take_array(&mut fields, "verbs");
    let state = take_array(&mut fields, "state");
    let events = take_array(&mut fields, "events");
    Surface { app: "zemacs-gui".to_owned(), verbs, state, events }
}

// ── laws ────────────────────────────────────────────────────────────────────────

/// The entries once a request has begun and then ended without another one in between.
pub open spec fn after_forward<T>(entries: Map<u64, T>, id: u64, entry: T) -> Map<u64, T> {
    entries.insert(id, entry).remove(id)
}

/// A request that has ended leaves nothing behind: the requests that wait are those that
/// waited before it began.
pub proof fn law_forward_leaves_nothing<T>(pending: Pending<T>, entry: T)
    requires
        pending.is_valid(),
    ensures
        after_forward(pending@, pending.next(), entry) == pending@,
{
    assert(!pending@.dom().contains(pending.next()));
    assert(after_forward(pending@, pending.next(), entry) =~= pending@);
}

/// A reply reaches the request of its number and no other, and only once.
pub proof fn law_reply_reaches_one_request<T>(entries: Map<u64, T>, id: u64, other: u64)
    requires
        id != other,
    ensures
        !entries.remove(id).dom().contains(id),
        entries.remove(id).dom().contains(other) == entries.dom().contains(other),
        entries.dom().contains(other) ==> entries.remove(id)[other] == entries[other],
{
}

/// No control character of the C0 set is left in a JSON string, so the script of a request
/// stays on one line whatever its name is.
pub proof fn law_json_is_one_line(s: Seq<char>)
    ensures
        forall|i: int| 0 <= i < json_text(s).len() ==> #[trigger] json_text(s)[i] >= ' ',
{
    lemma_json_chars(s);
    let t = json_text(s);
    assert forall|i: int| 0 <= i < t.len() implies #[trigger] t[i] >= ' ' by {
        if 0 < i < t.len() - 1 {
            assert(t[i] == json_chars(s)[i - 1]);
        }
    }
}

/// The escapes hold no control characters.
proof fn lemma_json_char(c: char)
    ensures
        forall|i: int| 0 <= i < json_char(c).len() ==> #[trigger] json_char(c)[i] >= ' ',
{
    let v = c as u32 as int;
    if v <= 0x1F {
        assert(0 <= v / 16 < 16 && 0 <= v % 16 < 16);
    }
}

/// The characters of a JSON string hold no control characters.
proof fn lemma_json_chars(s: Seq<char>)
    ensures
        forall|i: int| 0 <= i < json_chars(s).len() ==> #[trigger] json_chars(s)[i] >= ' ',
    decreases s.len(),
{
    if s.len() > 0 {
        let a = json_chars(s.drop_last());
        let b = json_char(s.last());
        lemma_json_chars(s.drop_last());
        lemma_json_char(s.last());
        assert forall|i: int| 0 <= i < (a + b).len() implies #[trigger] (a + b)[i] >= ' ' by {
            if i < a.len() {
                assert((a + b)[i] == a[i]);
            } else {
                assert((a + b)[i] == b[i - a.len()]);
            }
        }
    }
}

/// The value of a hexadecimal digit in lower case.
pub open spec fn hex_value(c: char) -> int {
    if c <= '9' {
        c as u32 - 48
    } else {
        c as u32 - 87
    }
}

/// The text that the characters of a JSON string stand for.
pub open spec fn json_read(t: Seq<char>) -> Seq<char>
    decreases t.len(),
{
    if t.len() == 0 {
        Seq::empty()
    } else if t[0] != '\\' || t.len() == 1 {
        seq![t[0]] + json_read(t.skip(1))
    } else if t[1] == 'u' && t.len() >= 6 {
        let v = ((hex_value(t[2]) * 16 + hex_value(t[3])) * 16 + hex_value(t[4])) * 16 + hex_value(
            t[5],
        );
        seq![v as char] + json_read(t.skip(6))
    } else {
        let c = if t[1] == 'b' {
            '\u{8}'
        } else if t[1] == 't' {
            '\t'
        } else if t[1] == 'n' {
            '\n'
        } else if t[1] == 'f' {
            '\u{c}'
        } else if t[1] == 'r' {
            '\r'
        } else {
            t[1]
        };
        seq![c] + json_read(t.skip(2))
    }
}

/// The name of a request reaches the web view as it is, whatever characters it holds.
pub proof fn law_json_reads_back(s: Seq<char>)
    ensures
        json_read(json_chars(s)) == s,
    decreases s.len(),
{
    if s.len() > 0 {
        let rest = s.drop_first();
        law_json_reads_back(rest);
        lemma_json_front(s);
        lemma_read_char(s[0], json_chars(rest));
        assert(seq![s[0]] + rest =~= s);
    }
}

/// The characters of a JSON string, from the front.
proof fn lemma_json_front(s: Seq<char>)
    requires
        s.len() > 0,
    ensures
        json_chars(s) == json_char(s[0]) + json_chars(s.drop_first()),
    decreases s.len(),
{
    if s.len() == 1 {
        assert(s.drop_last() =~= Seq::empty());
        assert(s.drop_first() =~= Seq::empty());
        assert(json_chars(s) =~= json_char(s[0]) + json_chars(s.drop_first()));
    } else {
        let t = s.drop_last();
        lemma_json_front(t);
        assert(t.drop_first() =~= s.drop_first().drop_last());
        assert(json_chars(s) =~= json_char(s[0]) + json_chars(s.drop_first()));
    }
}

/// What a character is written as is read back as that character.
proof fn lemma_read_char(c: char, rest: Seq<char>)
    ensures
        json_read(json_char(c) + rest) == seq![c] + json_read(rest),
{
    let t = json_char(c) + rest;
    let n = json_char(c).len() as int;
    let v = c as u32 as int;
    assert(t.skip(n) =~= rest);
    assert(forall|i: int| 0 <= i < n ==> t[i] == json_char(c)[i]);
    if n == 6 {
        assert(hex_value(hex_digit(v / 16)) == v / 16);
        assert(hex_value(hex_digit(v % 16)) == v % 16);
        assert(hex_value('0') == 0);
    }
}

/// A script calls the web view with four arguments: the number of the request, its kind and
/// its name as JSON strings, and its own arguments as they are.
pub proof fn law_script(id: u64, kind: Seq<char>, name: Seq<char>, args: Seq<char>) -> (digits: Seq<
    char,
>)
    ensures
        script_of(id, kind, name, args)
            == "window.__zguiBridgeDispatch&&window.__zguiBridgeDispatch("@ + text::join(
            seq![digits, json_text(kind), json_text(name), args],
            seq![','],
        ) + seq![')'],
        text::is_number(digits),
        text::number(digits) == id,
        digits[0] == '0' ==> digits.len() == 1,
{
    let digits = text::decimal(id as nat);
    let sep = seq![','];
    let k = json_text(kind);
    let n = json_text(name);
    text_laws::law_decimal(id as nat);
    text_laws::law_join(seq![digits], sep, k);
    text_laws::law_join(seq![digits, k], sep, n);
    text_laws::law_join(seq![digits, k, n], sep, args);
    text_laws::law_join(seq![digits], sep, digits);
    assert(seq![digits].push(k) =~= seq![digits, k]);
    assert(seq![digits, k].push(n) =~= seq![digits, k, n]);
    assert(seq![digits, k, n].push(args) =~= seq![digits, k, n, args]);
    assert(script_of(id, kind, name, args)
        =~= "window.__zguiBridgeDispatch&&window.__zguiBridgeDispatch("@ + (digits + sep + k + sep
        + n + sep + args) + seq![')']);
    digits
}

/// A JSON string stands between quotation marks.
pub proof fn law_json_is_quoted(s: Seq<char>)
    ensures
        json_text(s).len() == json_chars(s).len() + 2,
        json_text(s)[0] == '"',
        json_text(s).last() == '"',
        json_text(s).subrange(1, json_text(s).len() - 1) == json_chars(s),
{
    assert(json_text(s).subrange(1, json_text(s).len() - 1) =~= json_chars(s));
}

/// What the web view offers under a name is the array in the first field of that name, where
/// that holds one, and nothing where it does not or there is no such field.
pub proof fn law_offered<T>(
    before: Seq<(String, WebField<T>)>,
    field: (String, WebField<T>),
    behind: Seq<(String, WebField<T>)>,
    name: Seq<char>,
)
    requires
        forall|i: int| 0 <= i < before.len() ==> (#[trigger] before[i]).0@ != name,
        field.0@ == name,
    ensures
        array_named(before, name).len() == 0,
        field.1 is Array ==> array_named(before.push(field) + behind, name)
            == field.1->Array_0@,
        field.1 is Other ==> array_named(before.push(field) + behind, name).len() == 0,
    decreases before.len(),
{
    let all = before.push(field) + behind;
    if before.len() == 0 {
        assert(all[0] == field);
    } else {
        let t = before.drop_first();
        assert(before[0].0@ != name);
        assert forall|i: int| 0 <= i < t.len() implies (#[trigger] t[i]).0@ != name by {
            assert(t[i] == before[i + 1]);
        }
        law_offered(t, field, behind, name);
        assert(all[0] == before[0]);
        assert(all.drop_first() =~= t.push(field) + behind);
    }
}

/// An answer that is no object, or no answer at all, offers nothing; an object offers what
/// its fields hold.
pub proof fn law_no_answer<T>(reply: Result<WebReply<T>, String>, name: Seq<char>)
    ensures
        reply is Err ==> offered(reply, name).len() == 0,
        reply is Ok && reply->Ok_0 is Other ==> offered(reply, name).len() == 0,
        reply is Ok && reply->Ok_0 is Object ==> offered(reply, name) == array_named(
            reply->Ok_0->Object_0@,
            name,
        ),
{
}

/// Numbers start at one, and no two requests ever get the same, whether the first still
/// waits or not.
pub proof fn law_numbers_are_not_reused<T>(
    start: Pending<T>,
    first: T,
    id: u64,
    open: Pending<T>,
    taken: Option<T>,
    closed_one: Pending<T>,
    second: T,
    other: u64,
    again: Pending<T>,
)
    requires
        Pending::is_opened(start, first, id, open),
        Pending::is_taken(open, id, taken, closed_one),
        Pending::is_opened(open, second, other, again) || Pending::is_opened(
            closed_one,
            second,
            other,
            again,
        ),
    ensures
        other > id,
        start.is_new() ==> id == 1 && other == 2,
{
}

/// A request that came to wait is found by its number, once: its reply goes to what was
/// kept for it, and then the requests that wait are those that waited before. All others
/// wait on as they did.
pub proof fn law_kept_until_taken<T>(
    before: Pending<T>,
    entry: T,
    id: u64,
    open: Pending<T>,
    taken: Option<T>,
    after: Pending<T>,
    again: Option<T>,
    end: Pending<T>,
    other: u64,
)
    requires
        before.is_valid(),
        Pending::is_opened(before, entry, id, open),
        Pending::is_taken(open, id, taken, after),
        Pending::is_taken(after, id, again, end),
        other != id,
    ensures
        taken == Some(entry),
        again is None,
        after@ == before@,
        end@ == before@,
        open@.dom().contains(other) <==> before@.dom().contains(other),
        before@.dom().contains(other) ==> open@[other] == before@[other],
{
    assert(!before@.dom().contains(id));
    assert(after@ =~= before@);
    assert(end@ =~= before@);
}

/// A request begins just where there is a web view. It then waits, under a number that no
/// other has, and its script is one that hands it over; else nothing has changed.
pub proof fn law_begin<T>(
    before: Pending<T>,
    has_window: bool,
    request: Request,
    entry: T,
    r: Result<Dispatch, String>,
    after: Pending<T>,
    id: u64,
    open: Pending<T>,
)
    requires
        before.is_valid(),
        is_begun(before, has_window, request, entry, r, after),
        Pending::is_opened(before, entry, id, open),
    ensures
        r is Ok <==> has_window,
        r is Err ==> r->Err_0@ == "no main webview"@ && after == before,
        r is Ok ==> {
            &&& r->Ok_0.id == id
            &&& after@ == open@
            &&& after.next() == open.next()
            &&& r->Ok_0.script@ == script_of(id, request.kind@, request.name@, request.args@)
        },
{
}

/// A request whose script does not run is over at once: nothing of it waits, and what went
/// wrong is told. One whose script runs waits on.
pub proof fn law_eval<T>(
    before: Pending<T>,
    request: Request,
    entry: T,
    d: Dispatch,
    open: Pending<T>,
    eval: Result<(), String>,
    r: Result<(), String>,
    after: Pending<T>,
)
    requires
        before.is_valid(),
        is_begun(before, true, request, entry, Ok(d), open),
        is_after_eval(open, d.id, eval, r, after),
    ensures
        r is Ok <==> eval is Ok,
        eval is Ok ==> after@.dom().contains(d.id) && after@[d.id] == entry,
        eval is Err ==> after@ == before@,
        eval is Err ==> r->Err_0@ == "eval failed: "@ + eval->Err_0@,
        after.next() > before.next(),
{
    assert(!before@.dom().contains(d.id));
    if eval is Err {
        assert(after@ =~= before@);
    }
}

/// A request ends with the reply that came, as it came, or is told that none did. Either
/// way nothing of it waits.
pub proof fn law_wait<T, V>(
    before: Pending<T>,
    request: Request,
    entry: T,
    d: Dispatch,
    open: Pending<T>,
    ran: Pending<T>,
    reply: Option<Result<V, String>>,
    r: Result<V, String>,
    after: Pending<T>,
)
    requires
        before.is_valid(),
        is_begun(before, true, request, entry, Ok(d), open),
        is_after_eval(open, d.id, Ok(()), Ok(()), ran),
        is_after_wait(ran, d.id, reply, r, after),
    ensures
        after@ == before@,
        after.next() > before.next(),
        reply is Some ==> r == reply->0,
        reply is None ==> r is Err && r->Err_0@ == "webview did not reply"@,
{
    assert(!before@.dom().contains(d.id));
    assert(after@ =~= before@);
}

/// A report that all went well gives its value; one that it did not gives what went wrong.
pub proof fn law_report<V>(value: V, null: V, error: Option<String>, told: String, r: Result<V, String>)
    ensures
        is_report(true, Some(value), null, error, r) <==> r == Ok::<V, String>(value),
        is_report(true, None, null, error, r) <==> r == Ok::<V, String>(null),
        is_report(false, Some(value), null, Some(told), r) <==> r is Err && r->Err_0@ == told@,
        is_report(false, None, null, Some(told), r) <==> r is Err && r->Err_0@ == told@,
        is_report(false, None, null, None, r) <==> r is Err && r->Err_0@ == "webview verb failed"@,
        is_report(false, Some(value), null, None, r) <==> r is Err && r->Err_0@
            == "webview verb failed"@,
{
}

/// What scripts can use is what the web view offers under three names, and nothing where
/// it gives no object.
pub proof fn law_surface<T>(
    fields: Vec<(String, WebField<T>)>,
    reply: Result<WebReply<T>, String>,
    r: Surface<T>,
)
    requires
        is_surface(reply, r),
    ensures
        r.app@ == "zemacs-gui"@,
        reply == Ok::<WebReply<T>, String>(WebReply::Object(fields)) ==> r.verbs@ == array_named(
            fields@,
            "verbs"@,
        ) && r.state@ == array_named(fields@, "state"@) && r.events@ == array_named(
            fields@,
            "events"@,
        ),
        reply is Err || reply->Ok_0 is Other ==> r.verbs@.len() == 0 && r.state@.len() == 0
            && r.events@.len() == 0,
{
}

/// The script that hands a request over is the one of its kind, its name and its arguments.
pub proof fn law_request(
    r: Request,
    kind: Seq<char>,
    name: Seq<char>,
    args: Seq<char>,
    id: u64,
)
    requires
        is_request(r, kind, name, args),
    ensures
        script_of(id, r.kind@, r.name@, r.args@) == script_of(id, kind, name, args),
        r.name@ == name,
{
}

} // verus!
