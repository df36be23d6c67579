use vstd::prelude::*;

use crate::text::{parse_i8, parse_usize, spec_parse_i8, spec_parse_usize, str_eq};

verus! {

/// What went wrong with a request, as a view.
pub enum ErrorView {
    Undecodable,
    MissingField(Seq<char>),
    InvalidNumber(Seq<char>),
    NoRoomForUser,
    NoSuchRoom(usize),
}

/// Why a request to the game server cannot be carried out.
#[derive(Debug)]
pub enum RequestError {
    /// The message is not a MessagePack map from strings to strings.
    Undecodable,
    /// The request lacks the named field.
    MissingField(String),
    /// The named field does not hold a number of the expected type.
    InvalidNumber(String),
    /// The user has not joined or opened a room.
    NoRoomForUser,
    /// No room has this id.
    NoSuchRoom(usize),
}

impl View for RequestError {
    type V = ErrorView;

    open spec fn view(&self) -> ErrorView {
        match self {
            RequestError::Undecodable => ErrorView::Undecodable,
            RequestError::MissingField(f) => ErrorView::MissingField(f@),
            RequestError::InvalidNumber(f) => ErrorView::InvalidNumber(f@),
            RequestError::NoRoomForUser => ErrorView::NoRoomForUser,
            RequestError::NoSuchRoom(id) => ErrorView::NoSuchRoom(*id),
        }
    }
}

/// The (key, value) texts of a list of string pairs.
pub open spec fn pairs_view(pairs: Seq<(String, String)>) -> Seq<(Seq<char>, Seq<char>)> {
    pairs.map_values(|p: (String, String)| (p.0@, p.1@))
}

/// Position `i` holds the first pair of `s` with key `key`.
pub open spec fn is_first_key(s: Seq<(Seq<char>, Seq<char>)>, key: Seq<char>, i: int) -> bool {
    &&& 0 <= i < s.len()
    &&& s[i].0 == key
    &&& forall|j: int| 0 <= j < i ==> #[trigger] s[j].0 != key
}

/// No key occurs twice in `s`.
pub open spec fn keys_distinct(s: Seq<(Seq<char>, Seq<char>)>) -> bool {
    forall|i: int, j: int| 0 <= i < s.len() && 0 <= j < s.len() && i != j ==> #[trigger] s[i].0 != #[trigger] s[j].0
}

/// The map that a list of pairs describes, the first pair of each key
/// giving its value.
pub open spec fn list_to_map(s: Seq<(Seq<char>, Seq<char>)>) -> Map<Seq<char>, Seq<char>> {
    Map::new(
        |k: Seq<char>| exists|i: int| 0 <= i < s.len() && #[trigger] s[i].0 == k,
        |k: Seq<char>| s[choose|i: int| is_first_key(s, k, i)].1,
    )
}

/// What MessagePack-decoding `bytes` into a map from strings to strings
/// gives (rmp_serde into a `HashMap<String, String>`), or `None` where the
/// decoder refuses the bytes.
pub uninterp spec fn msgpack_string_map(bytes: Seq<u8>) -> Option<Map<Seq<char>, Seq<char>>>;

#[verifier::external_type_specification]
#[verifier::external_body]
pub struct ExDecodeError(rmp_serde::decode::Error);

/// Decodes a MessagePack map from strings to strings
/// (`rmp_serde::from_slice::<HashMap<String, String>>`) and lists its
/// entries. Claimed of it: it succeeds exactly where the decoder accepts the
/// bytes, the decoded map being `msgpack_string_map(bytes)`; the list holds
/// each key once, with its value. The order of the list (that of a hash map
/// walk) is left open.
#[verifier::external_body]
pub(crate) fn decode_request(bytes: &[u8]) -> (r: Result<Vec<(String, String)>, rmp_serde::decode::Error>)
    ensures
        match r {
            Ok(v) => msgpack_string_map(bytes@) == Some(list_to_map(pairs_view(v@))) && keys_distinct(
                pairs_view(v@),
            ),
            Err(_) => msgpack_string_map(bytes@) is None,
        },
{
    rmp_serde::from_slice::<std::collections::HashMap<String, String>>(bytes).map(
        |m| m.into_iter().collect(),
    )
}

/// The map of a list whose first pair with key `key` stands at `i`.
pub proof fn lemma_list_to_map_first(s: Seq<(Seq<char>, Seq<char>)>, key: Seq<char>, i: int)
    requires
        is_first_key(s, key, i),
    ensures
        list_to_map(s).contains_key(key),
        list_to_map(s)[key] == s[i].1,
{
    assert(s[i].0 == key);
    let c = choose|c: int| is_first_key(s, key, c);
    assert(is_first_key(s, key, c));
    if c < i {
        assert(s[c].0 != key);
    }
    if i < c {
        assert(s[i].0 != key);
    }
}

/// The position of the first pair with the given key, if any.
pub fn find_field(req: &Vec<(String, String)>, key: &str) -> (r: Option<usize>)
    ensures
        match r {
            Some(i) => is_first_key(pairs_view(req@), key@, i as int),
            None => !list_to_map(pairs_view(req@)).contains_key(key@),
        },
{
    let ghost pv = pairs_view(req@);
    let mut i: usize = 0;
    while i < req.len()
        invariant
            i <= req@.len(),
            pv == pairs_view(req@),
            forall|j: int| 0 <= j < i ==> #[trigger] pv[j].0 != key@,
        decreases req.len() - i,
    {
        let found = str_eq(req[i].0.as_str(), key);
        proof {
            assert(pv[i as int] == (req@[i as int].0@, req@[i as int].1@));
        }
        if found {
            return Some(i);
        }
        i = i + 1;
    }
    None
}

/// The value of the first pair with the given key, if any.
pub fn get_field<'a>(req: &'a Vec<(String, String)>, key: &str) -> (r: Option<&'a String>)
    ensures
        match r {
            Some(v) => list_to_map(pairs_view(req@)).get(key@) == Some(v@),
            None => list_to_map(pairs_view(req@)).get(key@) is None,
        },
{
    match find_field(req, key) {
        Some(i) => {
            proof {
                lemma_list_to_map_first(pairs_view(req@), key@, i as int);
                assert(pairs_view(req@)[i as int] == (req@[i as int].0@, req@[i as int].1@));
            }
            Some(&req[i].1)
        },
        None => None,
    }
}

/// The error of a `usize` field: missing, or not a decimal `usize`.
pub open spec fn usize_field_error(req: Map<Seq<char>, Seq<char>>, key: Seq<char>) -> Option<ErrorView> {
    match req.get(key) {
        None => Some(ErrorView::MissingField(key)),
        Some(v) => if spec_parse_usize(v) is None {
            Some(ErrorView::InvalidNumber(key))
        } else {
            None
        },
    }
}

/// The error of an `i8` field: missing, or not a decimal `i8`.
pub open spec fn i8_field_error(req: Map<Seq<char>, Seq<char>>, key: Seq<char>) -> Option<ErrorView> {
    match req.get(key) {
        None => Some(ErrorView::MissingField(key)),
        Some(v) => if spec_parse_i8(v) is None {
            Some(ErrorView::InvalidNumber(key))
        } else {
            None
        },
    }
}

/// The number a `usize` field holds, where it holds one.
pub open spec fn usize_field(req: Map<Seq<char>, Seq<char>>, key: Seq<char>) -> usize {
    spec_parse_usize(req[key]).unwrap()
}

/// The `usize` held by the field `key` of the request.
pub fn field_usize(req: &Vec<(String, String)>, key: &str) -> (r: Result<usize, RequestError>)
    ensures
        match usize_field_error(list_to_map(pairs_view(req@)), key@) {
            Some(e) => r matches Err(err) && err@ == e,
            None => r == Ok::<usize, RequestError>(usize_field(list_to_map(pairs_view(req@)), key@)),
        },
{
    match get_field(req, key) {
        None => Err(RequestError::MissingField(String::from_str(key))),
        Some(v) => match parse_usize(v.as_str()) {
            None => Err(RequestError::InvalidNumber(String::from_str(key))),
            Some(n) => Ok(n),
        },
    }
}

/// The `i8` held by the field `key` of the request.
pub fn field_i8(req: &Vec<(String, String)>, key: &str) -> (r: Result<i8, RequestError>)
    ensures
        match i8_field_error(list_to_map(pairs_view(req@)), key@) {
            Some(e) => r matches Err(err) && err@ == e,
            None => r == Ok::<i8, RequestError>(
                spec_parse_i8(list_to_map(pairs_view(req@))[key@]).unwrap(),
            ),
        },
{
    match get_field(req, key) {
        None => Err(RequestError::MissingField(String::from_str(key))),
        Some(v) => match parse_i8(v.as_str()) {
            None => Err(RequestError::InvalidNumber(String::from_str(key))),
            Some(n) => Ok(n),
        },
    }
}

} // verus!
