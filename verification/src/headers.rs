//! HTTP header maps of the `http` crate.

use crate::text;
use vstd::prelude::*;
use vstd::utf8;

verus! {

/// The header map of the `http` crate.
#[verifier::external_type_specification]
#[verifier::external_body]
#[verifier::reject_recursive_types(T)]
pub struct ExHeaderMap<T>(http::HeaderMap<T>);

/// A header name of the `http` crate.
#[verifier::external_type_specification]
#[verifier::external_body]
pub struct ExHeaderName(http::HeaderName);

/// A header value of the `http` crate.
#[verifier::external_type_specification]
#[verifier::external_body]
pub struct ExHeaderValue(http::HeaderValue);

/// What a header map holds: for each name, in lower case, its values in the order in which they
/// were added.
pub uninterp spec fn fields(m: http::HeaderMap<http::HeaderValue>) -> Map<Seq<char>, Seq<Seq<u8>>>;

/// The characters that a header name holds.
pub uninterp spec fn name_text(n: http::HeaderName) -> Seq<char>;

/// The bytes that a header value holds.
pub uninterp spec fn value_bytes(v: http::HeaderValue) -> Seq<u8>;

/// A header name as text.
pub assume_specification[ http::HeaderName::as_str ](n: &http::HeaderName) -> (r: &str)
    ensures
        r@ == name_text(*n),
;

/// A header value as bytes.
pub assume_specification[ http::HeaderValue::as_bytes ](v: &http::HeaderValue) -> (r: &[u8])
    ensures
        r@ == value_bytes(*v),
;

/// A map with fewer names than this has room for another one.
pub const ROOM: usize = 6554;

/// Whether a map has room for some more names.
pub open spec fn fits(m: Map<Seq<char>, Seq<Seq<u8>>>, more: nat) -> bool {
    m.dom().finite() && m.dom().len() + more <= ROOM
}

/// Whether a character may stand in a header name.
pub open spec fn is_name_char(c: char) -> bool {
    ('a' <= c && c <= 'z') || ('A' <= c && c <= 'Z') || ('0' <= c && c <= '9') || c == '!' || c
        == '#' || c == '$' || c == '%' || c == '&' || c == '\'' || c == '*' || c == '+' || c == '-'
        || c == '.' || c == '^' || c == '_' || c == '`' || c == '|' || c == '~'
}

/// Whether a text is a header name: 1 to 65535 characters that may stand in one.
pub open spec fn is_name(s: Seq<char>) -> bool {
    0 < s.len() <= 65535 && forall|i: int| 0 <= i < s.len() ==> is_name_char(#[trigger] s[i])
}

/// Whether bytes are a header value: no control characters but tabs.
pub open spec fn is_value(b: Seq<u8>) -> bool {
    forall|i: int| 0 <= i < b.len() ==> ((#[trigger] b[i]) >= 32 && b[i] != 127) || b[i] == 9
}

/// The values of a name.
pub open spec fn values(m: Map<Seq<char>, Seq<Seq<u8>>>, name: Seq<char>) -> Seq<Seq<u8>> {
    if m.dom().contains(name) {
        m[name]
    } else {
        Seq::empty()
    }
}

/// A map with one more value for a name.
pub open spec fn appended(
    m: Map<Seq<char>, Seq<Seq<u8>>>,
    name: Seq<char>,
    value: Seq<u8>,
) -> Map<Seq<char>, Seq<Seq<u8>>> {
    m.insert(name, values(m, name).push(value))
}

/// A map without fields.
pub open spec fn no_fields() -> Map<Seq<char>, Seq<Seq<u8>>> {
    Map::empty()
}

/// What became of a field that was to be put into a map.
#[derive(Clone, Copy, Debug, PartialEq, Eq, Structural)]
pub enum Put {
    Done,
    /// The name is no header name, or the value is no header value.
    Refused,
    /// The map is full.
    Full,
}

/// A map without fields, from `HeaderMap::new`.
#[verifier::external_body]
pub(crate) fn empty() -> (r: http::HeaderMap<http::HeaderValue>)
    ensures
        fields(r) == no_fields(),
{
    http::HeaderMap::new()
}

/// Whether a map has a name, in whatever case it is given, by `HeaderMap::contains_key`.
#[verifier::external_body]
pub(crate) fn contains(m: &http::HeaderMap<http::HeaderValue>, name: &str) -> (r: bool)
    requires
        is_name(name@),
    ensures
        r == fields(*m).dom().contains(text::lowered(name@)),
{
    m.contains_key(name)
}

/// The first value of a name, in whatever case it is given, by `HeaderMap::get`. It gives nothing
/// exactly where the map does not have the name.
#[verifier::external_body]
pub(crate) fn first<'a>(m: &'a http::HeaderMap<http::HeaderValue>, name: &str) -> (r: Option<
    &'a http::HeaderValue,
>)
    requires
        is_name(name@),
    ensures
        match r {
            Some(v) => values(fields(*m), text::lowered(name@)).len() > 0 && value_bytes(*v)
                == values(fields(*m), text::lowered(name@))[0],
            None => !fields(*m).dom().contains(text::lowered(name@)),
        },
{
    m.get(name)
}

/// Reads a header name with `HeaderName::from_bytes`, which puts it into lower case and refuses
/// exactly what is no name.
#[verifier::external_body]
fn read_name(name: &str) -> (r: Option<http::HeaderName>)
    ensures
        match r {
            Some(n) => is_name(name@) && name_text(n) == text::lowered(name@),
            None => !is_name(name@),
        },
{
    http::HeaderName::from_bytes(name.as_bytes()).ok()
}

/// Reads a header value with `HeaderValue::from_bytes`, which refuses exactly what is no value.
#[verifier::external_body]
fn read_value(value: &[u8]) -> (r: Option<http::HeaderValue>)
    ensures
        match r {
            Some(v) => is_value(value@) && value_bytes(v) == value@,
            None => !is_value(value@),
        },
{
    http::HeaderValue::from_bytes(value).ok()
}

/// Sets a name to one value with `HeaderMap::try_insert`, which drops the values that the name
/// had. The map refuses nothing while it has room, and stays as it is where it does refuse.
#[verifier::external_body]
fn insert_field(
    m: &mut http::HeaderMap<http::HeaderValue>,
    name: http::HeaderName,
    value: http::HeaderValue,
) -> (r: bool)
    ensures
        fields(*final(m)) == (if r {
            fields(*old(m)).insert(name_text(name), seq![value_bytes(value)])
        } else {
            fields(*old(m))
        }),
        fits(fields(*old(m)), 1) ==> r,
{
    m.try_insert(name, value).is_ok()
}

/// Adds a value to a name with `HeaderMap::try_append`, behind the values that the name has. The
/// map refuses nothing while it has room, and stays as it is where it does refuse.
#[verifier::external_body]
pub(crate) fn append_field(
    m: &mut http::HeaderMap<http::HeaderValue>,
    name: &http::HeaderName,
    value: &http::HeaderValue,
) -> (r: bool)
    ensures
        fields(*final(m)) == (if r {
            appended(fields(*old(m)), name_text(*name), value_bytes(*value))
        } else {
            fields(*old(m))
        }),
        fits(fields(*old(m)), 1) ==> r,
{
    m.try_append(name, value.clone()).is_ok()
}

/// Sets a name to one value in place of those that it had.
pub fn insert(m: &mut http::HeaderMap<http::HeaderValue>, name: &str, value: &[u8]) -> (r: Put)
    ensures
        r == Put::Refused <==> !(is_name(name@) && is_value(value@)),
        r == Put::Done ==> fields(*final(m)) == fields(*old(m)).insert(
            text::lowered(name@),
            seq![value@],
        ),
        r != Put::Done ==> fields(*final(m)) == fields(*old(m)),
        fits(fields(*old(m)), 1) ==> r != Put::Full,
{
    match (read_name(name), read_value(value)) {
        (Some(n), Some(v)) => if insert_field(m, n, v) {
            Put::Done
        } else {
            Put::Full
        },
        _ => Put::Refused,
    }
}

/// Adds a value to a name, behind the values that the name has.
pub fn append(m: &mut http::HeaderMap<http::HeaderValue>, name: &str, value: &[u8]) -> (r: Put)
    ensures
        r == Put::Refused <==> !(is_name(name@) && is_value(value@)),
        r == Put::Done ==> fields(*final(m)) == appended(
            fields(*old(m)),
            text::lowered(name@),
            value@,
        ),
        r != Put::Done ==> fields(*final(m)) == fields(*old(m)),
        fits(fields(*old(m)), 1) ==> r != Put::Full,
{
    match (read_name(name), read_value(value)) {
        (Some(n), Some(v)) => if append_field(m, &n, &v) {
            Put::Done
        } else {
            Put::Full
        },
        _ => Put::Refused,
    }
}

/// The values that a list of fields gives a name, in the order of the list.
pub open spec fn listed(
    fs: Seq<(&http::HeaderName, &http::HeaderValue)>,
    name: Seq<char>,
) -> Seq<Seq<u8>>
    decreases fs.len(),
{
    if fs.len() == 0 {
        Seq::empty()
    } else if name_text(*fs.last().0) == name {
        listed(fs.drop_last(), name).push(value_bytes(*fs.last().1))
    } else {
        listed(fs.drop_last(), name)
    }
}

/// The fields of a map as a list, from `HeaderMap::iter`. The list gives each name the values
/// that the map gives it, in their order. In which order the names come is not said, nor that they
/// are names in the sense of `is_name`: a map may hold others.
#[verifier::external_body]
pub(crate) fn pairs<'a>(m: &'a http::HeaderMap<http::HeaderValue>) -> (r: Vec<
    (&'a http::HeaderName, &'a http::HeaderValue),
>)
    ensures
        forall|n: Seq<char>| #[trigger] listed(r@, n) == values(fields(*m), n),
        forall|n: Seq<char>|
            #[trigger] fields(*m).dom().contains(n) <==> listed(r@, n).len() > 0,
{
    m.iter().collect()
}

/// The text of a header value: one character for each byte, where every byte is a visible ASCII
/// character, a space or a tab.
pub open spec fn visible_text(b: Seq<u8>) -> Option<Seq<char>> {
    if forall|i: int| 0 <= i < b.len() ==> (32 <= #[trigger] b[i] < 127) || b[i] == 9 {
        Some(Seq::new(b.len(), |i: int| b[i] as char))
    } else {
        None
    }
}

/// Reads a header value as text.
pub fn value_text(b: &[u8]) -> (r: Option<String>)
    ensures
        match r {
            Some(s) => visible_text(b@) == Some(s@),
            None => visible_text(b@) is None,
        },
{
    let n: usize = b.len();
    let mut s: String = String::new();
    let mut i: usize = 0;
    while i < n
        invariant
            n == b@.len(),
            i <= n,
            forall|j: int| 0 <= j < i ==> (32 <= #[trigger] b@[j] < 127) || b@[j] == 9,
            s@ == Seq::new(i as nat, |j: int| b@[j] as char),
        decreases n - i,
    {
        let c: u8 = b[i];
        if !(32 <= c && c < 127) && c != 9 {
            return None;
        }
        s.push(c as char);
        assert(s@ =~= Seq::new(i as nat + 1, |j: int| b@[j] as char));
        i = i + 1;
    }
    Some(s)
}

/// The text of the first value of a name.
pub open spec fn header_text(m: Map<Seq<char>, Seq<Seq<u8>>>, name: Seq<char>) -> Option<
    Seq<char>,
> {
    if m.dom().contains(name) {
        visible_text(values(m, name)[0])
    } else {
        None
    }
}

/// The text of the first value of a name, which is given in lower case.
pub fn first_text(m: &http::HeaderMap<http::HeaderValue>, name: &str) -> (r: Option<String>)
    requires
        is_name(name@),
        text::lowered(name@) == name@,
    ensures
        match r {
            Some(s) => header_text(fields(*m), name@) == Some(s@),
            None => header_text(fields(*m), name@) is None,
        },
{
    match first(m, name) {
        Some(v) => value_text(v.as_bytes()),
        None => None,
    }
}

/// Two fields.
pub open spec fn two_fields(
    name1: Seq<char>,
    value1: Seq<char>,
    name2: Seq<char>,
    value2: Seq<char>,
) -> Map<Seq<char>, Seq<Seq<u8>>> {
    no_fields().insert(text::lowered(name1), seq![utf8::encode_utf8(value1)]).insert(
        text::lowered(name2),
        seq![utf8::encode_utf8(value2)],
    )
}

/// A map of two fields with different names.
pub fn pair(name1: &str, value1: &str, name2: &str, value2: &str) -> (r: http::HeaderMap<
    http::HeaderValue,
>)
    requires
        is_name(name1@),
        is_name(name2@),
        is_value(utf8::encode_utf8(value1@)),
        is_value(utf8::encode_utf8(value2@)),
        text::lowered(name1@) != text::lowered(name2@),
    ensures
        fields(r) == two_fields(name1@, value1@, name2@, value2@),
{
    let mut m: http::HeaderMap<http::HeaderValue> = empty();
    let first: Put = append(&mut m, name1, value1.as_bytes());
    assert(first == Put::Done);
    let second: Put = append(&mut m, name2, value2.as_bytes());
    assert(second == Put::Done);
    assert(fields(m) =~= two_fields(name1@, value1@, name2@, value2@));
    m
}

/// Adding a value to a name puts it behind the values that the name had, and leaves the other names
/// as they were.
pub proof fn law_appended(
    m: Map<Seq<char>, Seq<Seq<u8>>>,
    name: Seq<char>,
    value: Seq<u8>,
    other: Seq<char>,
)
    ensures
        appended(m, name, value).dom().contains(name),
        m.dom().contains(name) ==> appended(m, name, value)[name] == m[name].push(value),
        !m.dom().contains(name) ==> appended(m, name, value)[name] == seq![value],
        other != name ==> appended(m, name, value).dom().contains(other) == m.dom().contains(other),
        other != name && m.dom().contains(other) ==> appended(m, name, value)[other] == m[other],
{
    assert(Seq::<Seq<u8>>::empty().push(value) =~= seq![value]);
}

/// A header value is read as the text that it is, where every character of it is visible, a space
/// or a tab; a value with any other byte is no text.
pub proof fn law_visible_text(s: Seq<char>, b: Seq<u8>, i: int)
    ensures
        (forall|j: int|
            0 <= j < s.len() ==> ' ' <= #[trigger] s[j] && s[j] <= '~' || s[j] == '\t')
            ==> visible_text(utf8::encode_utf8(s)) == Some(s),
        0 <= i < b.len() && (b[i] < 9 || 9 < b[i] < 32 || b[i] > 126) ==> visible_text(b) is None,
{
    if forall|j: int| 0 <= j < s.len() ==> ' ' <= #[trigger] s[j] && s[j] <= '~' || s[j] == '\t' {
        let e = utf8::encode_utf8(s);
        assert(utf8::is_ascii_chars(s));
        utf8::is_ascii_chars_encode_utf8(s);
        assert(Seq::new(e.len(), |j: int| e[j] as char) =~= s);
    }
}

/// A header is read by the first of its values.
pub proof fn law_header_text(m: Map<Seq<char>, Seq<Seq<u8>>>, name: Seq<char>)
    ensures
        !m.dom().contains(name) ==> header_text(m, name) is None,
        m.dom().contains(name) ==> header_text(m, name) == visible_text(m[name][0]),
{
}

/// A pair of fields is what both of them say and nothing else.
pub proof fn law_two_fields(
    name1: Seq<char>,
    value1: Seq<char>,
    name2: Seq<char>,
    value2: Seq<char>,
    other: Seq<char>,
)
    requires
        text::lowered(name1) != text::lowered(name2),
    ensures
        ({
            let m = two_fields(name1, value1, name2, value2);
            &&& m.dom().contains(other) <==> other == text::lowered(name1) || other
                == text::lowered(name2)
            &&& m[text::lowered(name1)] == seq![utf8::encode_utf8(value1)]
            &&& m[text::lowered(name2)] == seq![utf8::encode_utf8(value2)]
        }),
{
}

} // verus!
