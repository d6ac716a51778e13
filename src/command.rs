use vstd::prelude::*;
use crate::protocol::{all_ascii, copy_all, lemma_view_all_index, view_all, Frame, RespValue};
use crate::store::Store;

verus! {

/// A request, as read from an array of protocol values.
#[derive(Debug, Clone)]
pub enum Command {
    SetValue { key: String, value: Vec<u8> },
    Get { key: String },
    Del { key: String },
    Quit,
    Unknown,
}

/// The mathematical model of a command.
pub enum Cmd {
    SetValue(Seq<char>, Seq<u8>),
    Get(Seq<char>),
    Del(Seq<char>),
    Quit,
    Unknown,
}

impl Command {
    pub open spec fn view(&self) -> Cmd {
        match self {
            Command::SetValue { key, value } => Cmd::SetValue(key@, value@),
            Command::Get { key } => Cmd::Get(key@),
            Command::Del { key } => Cmd::Del(key@),
            Command::Quit => Cmd::Quit,
            Command::Unknown => Cmd::Unknown,
        }
    }
}

/// The text that `String::from_utf8_lossy` makes of some bytes.
pub uninterp spec fn lossy_text(b: Seq<u8>) -> Seq<char>;

/// Relies on `String::from_utf8_lossy`: its text depends on the bytes alone,
/// and valid UTF-8, such as ASCII, comes back unchanged.
#[verifier::external_body]
fn lossy_string(b: &[u8]) -> (r: String)
    ensures
        r@ == lossy_text(b@),
        all_ascii(b@) ==> r@ == b@.map_values(|c: u8| c as char),
{
    String::from_utf8_lossy(b).into_owned()
}

/// The key text that some bytes stand for: the same characters when the
/// bytes are ASCII, else their lossy UTF-8 text.
pub open spec fn key_text(b: Seq<u8>) -> Seq<char> {
    if all_ascii(b) {
        b.map_values(|c: u8| c as char)
    } else {
        lossy_text(b)
    }
}

pub open spec fn ascii_upper(b: u8) -> u8 {
    if 97 <= b <= 122 {
        (b - 32) as u8
    } else {
        b
    }
}

/// Whether `t` equals the upper-case word `w`, ignoring ASCII case.
pub open spec fn name_is(t: Seq<u8>, w: Seq<u8>) -> bool {
    t.len() == w.len() && forall|i: int| 0 <= i < t.len() ==> ascii_upper(#[trigger] t[i]) == w[i]
}

pub open spec fn word_set() -> Seq<u8> {
    seq![83u8, 69u8, 84u8]
}

pub open spec fn word_get() -> Seq<u8> {
    seq![71u8, 69u8, 84u8]
}

pub open spec fn word_del() -> Seq<u8> {
    seq![68u8, 69u8, 76u8]
}

pub open spec fn word_quit() -> Seq<u8> {
    seq![81u8, 85u8, 73u8, 84u8]
}

/// The command name carried by a value, if it can carry one.
pub open spec fn name_of(f: Frame) -> Option<Seq<u8>> {
    match f {
        Frame::Bulk(b) => Some(b),
        Frame::Simple(t) => Some(t),
        _ => None,
    }
}

/// The command an array of values denotes.
pub open spec fn command_of(a: Seq<Frame>) -> Cmd {
    if a.len() == 0 {
        Cmd::Unknown
    } else {
        match name_of(a[0]) {
            None => Cmd::Unknown,
            Some(n) => if name_is(n, word_set()) {
                if a.len() >= 3 && a[1] is Bulk && a[2] is Bulk {
                    Cmd::SetValue(key_text(a[1]->Bulk_0), a[2]->Bulk_0)
                } else {
                    Cmd::Unknown
                }
            } else if name_is(n, word_get()) {
                if a.len() == 2 && a[1] is Bulk {
                    Cmd::Get(key_text(a[1]->Bulk_0))
                } else {
                    Cmd::Unknown
                }
            } else if name_is(n, word_del()) {
                if a.len() == 2 && a[1] is Bulk {
                    Cmd::Del(key_text(a[1]->Bulk_0))
                } else {
                    Cmd::Unknown
                }
            } else if name_is(n, word_quit()) {
                Cmd::Quit
            } else {
                Cmd::Unknown
            },
        }
    }
}

pub open spec fn ok_text() -> Seq<u8> {
    seq![79u8, 75u8]
}

pub open spec fn closing_text() -> Seq<u8> {
    seq![
        67u8, 111u8, 110u8, 110u8, 101u8, 99u8, 116u8, 105u8, 111u8, 110u8, 32u8, 99u8, 108u8,
        111u8, 115u8, 105u8, 110u8, 103u8, 32u8, 115u8, 104u8, 111u8, 114u8, 116u8, 108u8, 121u8,
    ]
}

pub open spec fn unknown_text() -> Seq<u8> {
    seq![
        69u8, 82u8, 82u8, 32u8, 117u8, 110u8, 107u8, 110u8, 111u8, 119u8, 110u8, 32u8, 99u8,
        111u8, 109u8, 109u8, 97u8, 110u8, 100u8, 32u8, 111u8, 114u8, 32u8, 109u8, 97u8, 108u8,
        102u8, 111u8, 114u8, 109u8, 101u8, 100u8, 32u8, 99u8, 111u8, 109u8, 109u8, 97u8, 110u8,
        100u8, 32u8, 97u8, 114u8, 103u8, 117u8, 109u8, 101u8, 110u8, 116u8, 115u8,
    ]
}

/// The reply to a command on a store holding `m`.
pub open spec fn response(c: Cmd, m: Map<Seq<char>, Seq<u8>>) -> Frame {
    match c {
        Cmd::SetValue(_, _) => Frame::Simple(ok_text()),
        Cmd::Get(k) => if m.contains_key(k) {
            Frame::Bulk(m[k])
        } else {
            Frame::Null
        },
        Cmd::Del(k) => Frame::Integer(
            if m.contains_key(k) {
                1
            } else {
                0
            },
        ),
        Cmd::Quit => Frame::Simple(closing_text()),
        Cmd::Unknown => Frame::Error(unknown_text()),
    }
}

/// What a store holding `m` holds after a command.
pub open spec fn next_store(c: Cmd, m: Map<Seq<char>, Seq<u8>>) -> Map<Seq<char>, Seq<u8>> {
    match c {
        Cmd::SetValue(k, v) => m.insert(k, v),
        Cmd::Del(k) => m.remove(k),
        _ => m,
    }
}

/// Compares `t` with the upper-case word `w`, ignoring ASCII case.
fn same_name(t: &[u8], w: &[u8]) -> (r: bool)
    ensures
        r == name_is(t@, w@),
{
    if t.len() != w.len() {
        return false;
    }
    let mut i: usize = 0;
    while i < t.len()
        invariant
            t@.len() == w@.len(),
            i <= t@.len(),
            forall|j: int| 0 <= j < i ==> ascii_upper(#[trigger] t@[j]) == w@[j],
        decreases t@.len() - i,
    {
        let c = t[i];
        let u: u8 = if c >= 97u8 && c <= 122u8 {
            c - 32u8
        } else {
            c
        };
        if u != w[i] {
            return false;
        }
        i = i + 1;
    }
    true
}

/// The bytes of the `i`th element when it is a bulk string.
fn bulk_at(array: &Vec<RespValue>, i: usize) -> (r: Option<&Vec<u8>>)
    requires
        i < array@.len(),
    ensures
        r matches Some(b) ==> array@[i as int].view() == Frame::Bulk(b@),
        r is None ==> !(array@[i as int].view() is Bulk),
{
    match &array[i] {
        RespValue::BulkString(b) => Some(b),
        _ => None,
    }
}

fn closing_reply() -> (r: RespValue)
    ensures
        r.view() == Frame::Simple(closing_text()),
{
    let t = vec![
        67u8, 111u8, 110u8, 110u8, 101u8, 99u8, 116u8, 105u8, 111u8, 110u8, 32u8, 99u8, 108u8,
        111u8, 115u8, 105u8, 110u8, 103u8, 32u8, 115u8, 104u8, 111u8, 114u8, 116u8, 108u8, 121u8,
    ];
    assert(t@ =~= closing_text());
    RespValue::SimpleString(t)
}

fn unknown_reply() -> (r: RespValue)
    ensures
        r.view() == Frame::Error(unknown_text()),
{
    let t = vec![
        69u8, 82u8, 82u8, 32u8, 117u8, 110u8, 107u8, 110u8, 111u8, 119u8, 110u8, 32u8, 99u8,
        111u8, 109u8, 109u8, 97u8, 110u8, 100u8, 32u8, 111u8, 114u8, 32u8, 109u8, 97u8, 108u8,
        102u8, 111u8, 114u8, 109u8, 101u8, 100u8, 32u8, 99u8, 111u8, 109u8, 109u8, 97u8, 110u8,
        100u8, 32u8, 97u8, 114u8, 103u8, 117u8, 109u8, 101u8, 110u8, 116u8, 115u8,
    ];
    assert(t@ =~= unknown_text());
    RespValue::Error(t)
}

impl Command {
    /// The reply of a command that does not touch the store (`QUIT` and
    /// unknown commands); `None` for the others, which need the store.
    pub fn reply_without_store(&self) -> (r: Option<RespValue>)
        ensures
            (self.view() is Quit || self.view() is Unknown) <==> r is Some,
            r matches Some(v) ==> forall|m: Map<Seq<char>, Seq<u8>>|
                v.view() == #[trigger] response(self.view(), m) && next_store(self.view(), m) == m,
    {
        match self {
            Command::Quit => Some(closing_reply()),
            Command::Unknown => Some(unknown_reply()),
            _ => None,
        }
    }

    /// Reads a command out of an array of values; anything malformed
    /// becomes `Unknown`.
    pub fn parse_from_resp_array(array: Vec<RespValue>) -> (r: Command)
        ensures
            r.view() == command_of(view_all(array@)),
    {
        proof {
            lemma_view_all_index(array@);
        }
        if array.len() == 0 {
            return Command::Unknown;
        }
        let name: &Vec<u8> = match &array[0] {
            RespValue::BulkString(b) => b,
            RespValue::SimpleString(t) => t,
            _ => {
                return Command::Unknown;
            },
        };
        let n = name.as_slice();
        proof {
            assert(seq![83u8, 69u8, 84u8] =~= word_set());
            assert(seq![71u8, 69u8, 84u8] =~= word_get());
            assert(seq![68u8, 69u8, 76u8] =~= word_del());
            assert(seq![81u8, 85u8, 73u8, 84u8] =~= word_quit());
        }
        if same_name(n, vec![83u8, 69u8, 84u8].as_slice()) {
            if array.len() >= 3 {
                if let (Some(k), Some(v)) = (bulk_at(&array, 1), bulk_at(&array, 2)) {
                    let key = lossy_string(k.as_slice());
                    let value = copy_all(v);
                    return Command::SetValue { key, value };
                }
            }
            Command::Unknown
        } else if same_name(n, vec![71u8, 69u8, 84u8].as_slice()) {
            if array.len() == 2 {
                if let Some(k) = bulk_at(&array, 1) {
                    return Command::Get { key: lossy_string(k.as_slice()) };
                }
            }
            Command::Unknown
        } else if same_name(n, vec![68u8, 69u8, 76u8].as_slice()) {
            if array.len() == 2 {
                if let Some(k) = bulk_at(&array, 1) {
                    return Command::Del { key: lossy_string(k.as_slice()) };
                }
            }
            Command::Unknown
        } else {
            if same_name(n, vec![81u8, 85u8, 73u8, 84u8].as_slice()) {
                Command::Quit
            } else {
                Command::Unknown
            }
        }
    }

    /// Runs the command against the store and gives the reply.
    pub fn execute(self, store: &mut Store) -> (r: RespValue)
        requires
            old(store).wf(),
        ensures
            final(store).wf(),
            r.view() == response(self.view(), old(store)@),
            final(store)@ == next_store(self.view(), old(store)@),
    {
        match self {
            Command::SetValue { key, value } => {
                store.set(key, value);
                let t = vec![79u8, 75u8];
                assert(t@ =~= ok_text());
                RespValue::SimpleString(t)
            },
            Command::Get { key } => match store.get(&key) {
                Some(v) => RespValue::BulkString(v),
                None => RespValue::Null,
            },
            Command::Del { key } => {
                if store.del(&key) {
                    RespValue::Integer(1)
                } else {
                    RespValue::Integer(0)
                }
            },
            Command::Quit => closing_reply(),
            Command::Unknown => unknown_reply(),
        }
    }
}

/// The key a command reads or writes, if any.
pub open spec fn key_of(c: Cmd) -> Option<Seq<char>> {
    match c {
        Cmd::SetValue(k, _) => Some(k),
        Cmd::Get(k) => Some(k),
        Cmd::Del(k) => Some(k),
        _ => None,
    }
}

/// A `GET` after a `SET` of the same key gives exactly the bytes set.
pub proof fn lemma_set_then_get(m: Map<Seq<char>, Seq<u8>>, k: Seq<char>, v: Seq<u8>)
    ensures
        response(Cmd::Get(k), next_store(Cmd::SetValue(k, v), m)) == Frame::Bulk(v),
{
}

/// Of two `SET`s of one key, a later `GET` sees the last.
pub proof fn lemma_last_write_wins(m: Map<Seq<char>, Seq<u8>>, k: Seq<char>, v1: Seq<u8>, v2: Seq<u8>)
    ensures
        response(Cmd::Get(k), next_store(Cmd::SetValue(k, v2), next_store(Cmd::SetValue(k, v1), m)))
            == Frame::Bulk(v2),
{
}

/// A `GET` of an absent key gives `Null`, and a `DEL` of it gives 0.
pub proof fn lemma_absent_key(m: Map<Seq<char>, Seq<u8>>, k: Seq<char>)
    requires
        !m.contains_key(k),
    ensures
        response(Cmd::Get(k), m) == Frame::Null,
        response(Cmd::Del(k), m) == Frame::Integer(0),
        next_store(Cmd::Del(k), m) == m,
{
    assert(m.remove(k) =~= m);
}

/// A `DEL` of a present key gives 1, and a later `GET` of it gives `Null`.
pub proof fn lemma_delete_present(m: Map<Seq<char>, Seq<u8>>, k: Seq<char>)
    requires
        m.contains_key(k),
    ensures
        response(Cmd::Del(k), m) == Frame::Integer(1),
        response(Cmd::Get(k), next_store(Cmd::Del(k), m)) == Frame::Null,
{
}

/// An empty array, or one whose first element is neither a bulk nor a simple
/// string, is an unknown command, and its reply is the fixed error.
pub proof fn lemma_malformed_is_unknown(a: Seq<Frame>, m: Map<Seq<char>, Seq<u8>>)
    requires
        a.len() == 0 || !(a[0] is Bulk || a[0] is Simple),
    ensures
        command_of(a) == Cmd::Unknown,
        response(command_of(a), m) == Frame::Error(unknown_text()),
        next_store(command_of(a), m) == m,
{
}

/// A command on one key neither changes nor reads what another key holds:
/// clients on disjoint keys see only their own writes, in any interleaving.
pub proof fn lemma_other_keys_untouched(c: Cmd, m: Map<Seq<char>, Seq<u8>>, k: Seq<char>)
    requires
        key_of(c) != Some(k),
    ensures
        next_store(c, m).contains_key(k) == m.contains_key(k),
        m.contains_key(k) ==> next_store(c, m)[k] == m[k],
        response(Cmd::Get(k), next_store(c, m)) == response(Cmd::Get(k), m),
{
}

} // verus!
