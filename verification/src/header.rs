//! The header table of a message: names without regard to case, each with
//! the values that were given for it, in the order in which they came.

use vstd::prelude::*;
use vstd::utf8::{decode_utf8, encode_utf8, valid_utf8};
use crate::consts::{
    COLON, COMMA, CR, HEADER_ACCEPT_ENCODING, HEADER_CONNECTION, HEADER_CONTENT_LENGTH,
    HEADER_CONTENT_TYPE, LF, SPACE,
};
use crate::error::HttpError;
use crate::sink::send;
use crate::text::{
    ascii_chars, ascii_string, decimal_digits, format_usize, is_whitespace, lemma_around_ascii,
    lemma_ascii_is_utf8, lemma_decimal_round_trip, lemma_decode_after_space, lemma_encode_concat,
    lemma_no_char_no_byte, lemma_split_valid, lowercase_of, parse_decimal, parse_usize, to_lower,
    trim, trimmed, trimmed_start, utf8_str,
};
use crate::wire::{
    append_range, crlf, find_byte, first_at, index_of_first, joined_lines,
    lemma_first_at_unique, split_bytes, split_on, views,
};

verus! {

/// A header table as a value: the names in the order in which they first
/// came, each with its values.
pub type HeaderModel = Seq<(Seq<char>, Seq<Seq<char>>)>;

/// The table has an entry under `key`.
pub open spec fn has_name(m: HeaderModel, key: Seq<char>) -> bool {
    exists|i: int| 0 <= i < m.len() && m[i].0 == key
}

/// The index of the entry under `key`; meaningful when there is one.
pub open spec fn slot_of(m: HeaderModel, key: Seq<char>) -> int {
    choose|i: int| 0 <= i < m.len() && m[i].0 == key
}

/// The values under `key`, none where the table has no such entry.
pub open spec fn values_of(m: HeaderModel, key: Seq<char>) -> Seq<Seq<char>> {
    if has_name(m, key) {
        m[slot_of(m, key)].1
    } else {
        Seq::empty()
    }
}

/// The first value under `key`.
pub open spec fn first_value(m: HeaderModel, key: Seq<char>) -> Option<Seq<char>> {
    let values = values_of(m, key);
    if values.len() > 0 {
        Some(values[0])
    } else {
        None
    }
}

/// The table with `value` added behind the values that `key` already has.
pub open spec fn appended(m: HeaderModel, key: Seq<char>, value: Seq<char>) -> HeaderModel {
    if has_name(m, key) {
        let i = slot_of(m, key);
        m.update(i, (key, m[i].1.push(value)))
    } else {
        m.push((key, seq![value]))
    }
}

/// The table with `value` as the only value of `key`.
pub open spec fn replaced(m: HeaderModel, key: Seq<char>, value: Seq<char>) -> HeaderModel {
    if has_name(m, key) {
        m.update(slot_of(m, key), (key, seq![value]))
    } else {
        m.push((key, seq![value]))
    }
}

/// No name occurs twice, and every name has a value.
pub open spec fn well_formed(m: HeaderModel) -> bool {
    &&& forall|i: int, j: int| 0 <= i < j < m.len() ==> m[i].0 != m[j].0
    &&& forall|i: int| 0 <= i < m.len() ==> (#[trigger] m[i]).1.len() > 0
}

/// What `add` makes of a table: the value goes under the lower-cased name.
pub open spec fn inserted(m: HeaderModel, name: Seq<char>, value: Seq<char>) -> HeaderModel {
    appended(m, lowercase_of(name), value)
}

/// What `get` finds in a table: the first value under the lower-cased name.
pub open spec fn lookup(m: HeaderModel, name: Seq<char>) -> Option<Seq<char>> {
    first_value(m, lowercase_of(name))
}

/// The values of one header as they stand on the wire: separated by a comma
/// and a space.
pub open spec fn joined_values(values: Seq<Seq<char>>) -> Seq<u8>
    decreases values.len(),
{
    if values.len() == 0 {
        Seq::empty()
    } else if values.len() == 1 {
        encode_utf8(values[0])
    } else {
        joined_values(values.drop_last()) + seq![COMMA, SPACE] + encode_utf8(values.last())
    }
}

/// One header as it stands in a line, without the terminator: `name: v1, v2`.
pub open spec fn header_text(name: Seq<char>, values: Seq<Seq<char>>) -> Seq<u8> {
    encode_utf8(name) + seq![COLON, SPACE] + joined_values(values)
}

/// One header as it stands on the wire: its line and a line terminator.
pub open spec fn header_line(name: Seq<char>, values: Seq<Seq<char>>) -> Seq<u8> {
    header_text(name, values) + crlf()
}

/// The lines of the headers of a table, in the order of the table.
pub open spec fn header_texts(m: HeaderModel) -> Seq<Seq<u8>> {
    m.map_values(|entry: (Seq<char>, Seq<Seq<char>>)| header_text(entry.0, entry.1))
}

/// The headers of a table as they stand on the wire, one line each, in the
/// order of the table.
pub open spec fn header_block(m: HeaderModel) -> Seq<u8>
    decreases m.len(),
{
    if m.len() == 0 {
        Seq::empty()
    } else {
        header_block(m.drop_last()) + header_line(m.last().0, m.last().1)
    }
}

/// The name and the value that a header line gives: what stands before its
/// first colon and what stands behind it, each without the white space
/// around it. Meaningful for a line of valid UTF-8 that holds a colon.
pub open spec fn header_parts(line: Seq<u8>) -> (Seq<char>, Seq<char>) {
    let p = index_of_first(line, COLON);
    (trimmed(decode_utf8(line.take(p))), trimmed(decode_utf8(line.skip(p + 1))))
}

/// The body length that a table announces: none announced means 0, and a
/// first `Content-Length` value that is no decimal number, or one too large
/// for the machine, means no length at all.
pub open spec fn announced_length(m: HeaderModel) -> Option<usize> {
    match lookup(m, HEADER_CONTENT_LENGTH@) {
        None => Some(0),
        Some(value) => match parse_decimal(encode_utf8(value)) {
            Some(n) => if n <= usize::MAX {
                Some(n as usize)
            } else {
                None
            },
            None => None,
        },
    }
}

/// The encodings that a table accepts: the pieces between the commas of the
/// first `Accept-Encoding` value, each without the white space around it.
pub open spec fn accepted_encodings(m: HeaderModel) -> Option<Seq<Seq<char>>> {
    match lookup(m, HEADER_ACCEPT_ENCODING@) {
        None => None,
        Some(value) => Some(
            split_on(encode_utf8(value), COMMA).map_values(|t: Seq<u8>| trimmed(decode_utf8(t))),
        ),
    }
}

/// The table with `n` as its only `Content-Length`.
pub open spec fn with_length(m: HeaderModel, n: usize) -> HeaderModel {
    replaced(m, lowercase_of(HEADER_CONTENT_LENGTH@), ascii_chars(decimal_digits(n as nat)))
}

/// The texts that the strings hold.
pub open spec fn texts(v: Seq<String>) -> Seq<Seq<char>> {
    v.map_values(|s: String| s@)
}

/// In a well-formed table the entry under a name is the only one.
pub proof fn lemma_slot(m: HeaderModel, key: Seq<char>, i: int)
    requires
        well_formed(m),
        0 <= i < m.len(),
        m[i].0 == key,
    ensures
        has_name(m, key),
        slot_of(m, key) == i,
{
    let j = slot_of(m, key);
    if j < i {
        assert(m[j].0 != m[i].0);
    } else if i < j {
        assert(m[i].0 != m[j].0);
    }
}

/// Adding a value keeps a table well formed, puts the value last under its
/// name and leaves every other name as it was.
pub proof fn lemma_appended(m: HeaderModel, key: Seq<char>, value: Seq<char>)
    requires
        well_formed(m),
    ensures
        well_formed(appended(m, key, value)),
        values_of(appended(m, key, value), key) == values_of(m, key).push(value),
        forall|other: Seq<char>|
            other != key ==> values_of(appended(m, key, value), other) == values_of(m, other),
{
    let a = appended(m, key, value);
    if has_name(m, key) {
        let i = slot_of(m, key);
        assert(a[i].0 == key);
        lemma_slot(a, key, i);
        assert forall|other: Seq<char>| other != key implies values_of(a, other) == values_of(
            m,
            other,
        ) by {
            lemma_other_names(m, a, key, other);
        }
    } else {
        let i = m.len() as int;
        assert forall|x: int, y: int| 0 <= x < y < a.len() implies a[x].0 != a[y].0 by {
            if y == i {
                assert(m[x].0 != key);
            }
        }
        assert(a[i].0 == key);
        lemma_slot(a, key, i);
        assert(values_of(m, key).push(value) =~= seq![value]);
        assert forall|other: Seq<char>| other != key implies values_of(a, other) == values_of(
            m,
            other,
        ) by {
            lemma_other_names(m, a, key, other);
        }
    }
}

/// Replacing the values of a name keeps a table well formed, leaves the one
/// value under that name and every other name as it was.
pub proof fn lemma_replaced(m: HeaderModel, key: Seq<char>, value: Seq<char>)
    requires
        well_formed(m),
    ensures
        well_formed(replaced(m, key, value)),
        values_of(replaced(m, key, value), key) == seq![value],
        forall|other: Seq<char>|
            other != key ==> values_of(replaced(m, key, value), other) == values_of(m, other),
{
    let a = replaced(m, key, value);
    if has_name(m, key) {
        let i = slot_of(m, key);
        assert(a[i].0 == key);
        lemma_slot(a, key, i);
    } else {
        let i = m.len() as int;
        assert forall|x: int, y: int| 0 <= x < y < a.len() implies a[x].0 != a[y].0 by {
            if y == i {
                assert(m[x].0 != key);
            }
        }
        assert(a[i].0 == key);
        lemma_slot(a, key, i);
    }
    assert forall|other: Seq<char>| other != key implies values_of(a, other) == values_of(
        m,
        other,
    ) by {
        lemma_other_names(m, a, key, other);
    }
}

/// A table that differs from another only under `key`, or by a new last
/// entry under `key`, has the same values under every other name.
proof fn lemma_other_names(m: HeaderModel, a: HeaderModel, key: Seq<char>, other: Seq<char>)
    requires
        well_formed(m),
        well_formed(a),
        other != key,
        m.len() <= a.len() <= m.len() + 1,
        forall|i: int| 0 <= i < m.len() ==> a[i].0 == m[i].0,
        forall|i: int| 0 <= i < m.len() && m[i].0 != key ==> a[i] == m[i],
        a.len() > m.len() ==> a[m.len() as int].0 == key,
    ensures
        values_of(a, other) == values_of(m, other),
{
    if has_name(m, other) {
        let i = slot_of(m, other);
        assert(a[i].0 == other);
        lemma_slot(a, other, i);
    } else if has_name(a, other) {
        let i = slot_of(a, other);
        if i < m.len() {
            assert(m[i].0 == other);
        }
    }
}

/// Names that differ only in the case of their letters are one name to the
/// table: a value that was added under one of them is found under the other,
/// exactly as if it had been added under that other.
pub proof fn lemma_case_insensitive(
    m: HeaderModel,
    stored_as: Seq<char>,
    asked_as: Seq<char>,
    value: Seq<char>,
)
    requires
        well_formed(m),
        lowercase_of(stored_as) == lowercase_of(asked_as),
    ensures
        inserted(m, stored_as, value) == inserted(m, asked_as, value),
        lookup(inserted(m, stored_as, value), asked_as) is Some,
        lookup(m, asked_as) is None ==> lookup(inserted(m, stored_as, value), asked_as) == Some(
            value,
        ),
        lookup(m, asked_as) is Some ==> lookup(inserted(m, stored_as, value), asked_as) == lookup(
            m,
            asked_as,
        ),
        lookup(m, stored_as) == lookup(m, asked_as),
{
    let key = lowercase_of(stored_as);
    lemma_appended(m, key, value);
    if has_name(m, key) {
        let i = slot_of(m, key);
        assert(m[i].1.len() > 0);
    }
}

#[derive(Debug)]
struct HeaderEntry {
    name: String,
    values: Vec<String>,
}

impl HeaderEntry {
    spec fn model(self) -> (Seq<char>, Seq<Seq<char>>) {
        (self.name@, texts(self.values@))
    }
}

/// A case-insensitive table of headers. The names are kept in lower case.
#[derive(Debug)]
pub struct Headers {
    entries: Vec<HeaderEntry>,
}

impl View for Headers {
    type V = HeaderModel;

    closed spec fn view(&self) -> HeaderModel {
        self.entries@.map_values(|e: HeaderEntry| e.model())
    }
}

impl Headers {
    /// No name occurs twice, and every name has a value.
    pub open spec fn wf(&self) -> bool {
        well_formed(self@)
    }

    /// A table without headers.
    pub fn new() -> (r: Self)
        ensures
            r.wf(),
            r@ == Seq::<(Seq<char>, Seq<Seq<char>>)>::empty(),
    {
        let r = Headers { entries: Vec::new() };
        assert(r@ =~= Seq::<(Seq<char>, Seq<Seq<char>>)>::empty());
        r
    }

    /// Where the entry under `key` is.
    fn position(&self, key: &String) -> (r: Option<usize>)
        requires
            self.wf(),
        ensures
            match r {
                Some(i) => i < self@.len() && self@[i as int].0 == key@ && has_name(self@, key@)
                    && slot_of(self@, key@) == i,
                None => !has_name(self@, key@),
            },
    {
        let mut i: usize = 0;
        while i < self.entries.len()
            invariant
                self.wf(),
                i <= self.entries@.len(),
                forall|j: int| 0 <= j < i ==> self@[j].0 != key@,
            decreases self.entries.len() - i,
        {
            if self.entries[i].name == *key {
                proof {
                    lemma_slot(self@, key@, i as int);
                }
                return Some(i);
            }
            i += 1;
        }
        None
    }

    /// Adds `value` behind the values that the lower-cased `name` already has.
    pub fn add(&mut self, name: &str, value: &str)
        requires
            old(self).wf(),
        ensures
            final(self).wf(),
            final(self)@ == inserted(old(self)@, name@, value@),
    {
        let key = to_lower(name);
        proof {
            lemma_appended(self@, key@, value@);
        }
        match self.position(&key) {
            Some(i) => {
                let ghost before = self.entries@[i as int];
                self.entries[i].values.push(value.to_owned());
                proof {
                    assert(texts(self.entries@[i as int].values@) =~= texts(before.values@).push(
                        value@,
                    ));
                    assert(self@ =~= appended(old(self)@, key@, value@));
                }
            },
            None => {
                let mut values: Vec<String> = Vec::new();
                values.push(value.to_owned());
                assert(texts(values@) =~= seq![value@]);
                self.entries.push(HeaderEntry { name: key, values });
                assert(self@ =~= appended(old(self)@, key@, value@));
            },
        }
    }

    /// Makes `value` the only value of the lower-cased `name`.
    pub fn set(&mut self, name: &str, value: &str)
        requires
            old(self).wf(),
        ensures
            final(self).wf(),
            final(self)@ == replaced(old(self)@, lowercase_of(name@), value@),
    {
        let key = to_lower(name);
        proof {
            lemma_replaced(self@, key@, value@);
        }
        let mut values: Vec<String> = Vec::new();
        values.push(value.to_owned());
        assert(texts(values@) =~= seq![value@]);
        match self.position(&key) {
            Some(i) => {
                self.entries[i].values = values;
                assert(self@ =~= replaced(old(self)@, key@, value@));
            },
            None => {
                self.entries.push(HeaderEntry { name: key, values });
                assert(self@ =~= replaced(old(self)@, key@, value@));
            },
        }
    }

    /// The first value of the header with the given name, in whatever case
    /// the name is written.
    pub fn get(&self, name: &str) -> (r: Option<&str>)
        requires
            self.wf(),
        ensures
            match r {
                Some(value) => lookup(self@, name@) == Some(value@),
                None => lookup(self@, name@) is None,
            },
    {
        let key = to_lower(name);
        match self.position(&key) {
            Some(i) => {
                assert(self@[i as int].1.len() > 0);
                assert(self@[i as int].1[0] == self.entries@[i as int].values@[0]@);
                Some(self.entries[i].values[0].as_str())
            },
            None => None,
        }
    }

    /// Takes a header line, `Name: value`, into the table: the name is what
    /// stands before the first colon, the value what stands behind it, both
    /// without the white space around them.
    pub fn read(&mut self, bytes: &[u8]) -> (r: Result<(), HttpError>)
        requires
            old(self).wf(),
        ensures
            final(self).wf(),
            match r {
                Ok(()) => valid_utf8(bytes@) && bytes@.contains(COLON) && final(self)@ == inserted(
                    old(self)@,
                    header_parts(bytes@).0,
                    header_parts(bytes@).1,
                ),
                Err(HttpError::InvalidText) => !valid_utf8(bytes@) && final(self)@ == old(self)@,
                Err(HttpError::MalformedHeader) => valid_utf8(bytes@) && !bytes@.contains(COLON)
                    && final(self)@ == old(self)@,
                Err(_) => false,
            },
    {
        if utf8_str(bytes).is_none() {
            return Err(HttpError::InvalidText);
        }
        assert(bytes@.skip(0) =~= bytes@);
        let idx = match find_byte(bytes, COLON, 0) {
            Some(idx) => idx,
            None => {
                return Err(HttpError::MalformedHeader);
            },
        };
        proof {
            lemma_first_at_unique(bytes@, COLON, idx as int);
            lemma_around_ascii(bytes@, idx as int);
            assert(bytes@.take(idx as int) =~= bytes@.subrange(0, idx as int));
            assert(bytes@.skip(idx + 1) =~= bytes@.subrange(idx + 1, bytes@.len() as int));
        }
        assert(idx < bytes.len());
        let left = vstd::slice::slice_subrange(bytes, 0, idx);
        let right = vstd::slice::slice_subrange(bytes, idx + 1, bytes.len());
        match (utf8_str(left), utf8_str(right)) {
            (Some(name), Some(value)) => {
                self.add(trim(name), trim(value));
                Ok(())
            },
            _ => Err(HttpError::InvalidText),
        }
    }

    /// The headers as they go on the wire.
    pub fn to_bytes(&self) -> (r: Vec<u8>)
        ensures
            r@ == header_block(self@),
    {
        let mut out: Vec<u8> = Vec::new();
        let mut i: usize = 0;
        while i < self.entries.len()
            invariant
                i <= self.entries@.len(),
                out@ == header_block(self@.take(i as int)),
            decreases self.entries.len() - i,
        {
            let line = wire_format(&self.entries[i].name, self.entries[i].values.as_slice());
            let mut line = line;
            out.append(&mut line);
            proof {
                let next = self@.take(i + 1);
                assert(next.drop_last() =~= self@.take(i as int));
                assert(next.last() == self@[i as int]);
            }
            i += 1;
        }
        assert(self@.take(i as int) =~= self@);
        out
    }

    /// Writes the headers to the sink: what `to_bytes` makes, handed over in
    /// one piece. A table without headers asks nothing of the sink, so
    /// writing it succeeds; else the sink decides, and only its refusal is an
    /// error.
    pub fn write(&self, stream: &mut impl std::io::Write) -> (r: Result<(), HttpError>)
        ensures
            self@.len() == 0 ==> r is Ok,
            r is Err ==> r.unwrap_err() is Transport,
    {
        if self.entries.len() == 0 {
            return Ok(());
        }
        let bytes = self.to_bytes();
        send(stream, bytes.as_slice())
    }

    /// The length of the body that the headers announce; 0 where they
    /// announce none.
    pub fn content_length(&self) -> (r: Result<usize, HttpError>)
        requires
            self.wf(),
        ensures
            match r {
                Ok(n) => announced_length(self@) == Some(n),
                Err(HttpError::InvalidContentLength) => announced_length(self@) is None,
                Err(_) => false,
            },
    {
        match self.get(HEADER_CONTENT_LENGTH) {
            None => Ok(0),
            Some(value) => match parse_usize(value.as_bytes()) {
                Some(n) => Ok(n),
                None => Err(HttpError::InvalidContentLength),
            },
        }
    }

    /// Makes `n`, in decimal, the only `Content-Length`.
    pub fn set_content_length(&mut self, n: usize)
        requires
            old(self).wf(),
        ensures
            final(self).wf(),
            final(self)@ == with_length(old(self)@, n),
    {
        let digits = format_usize(n);
        proof {
            lemma_decimal_round_trip(n as nat);
        }
        let text = ascii_string(digits.as_slice());
        self.set(HEADER_CONTENT_LENGTH, text.as_str());
    }

    /// The first `Content-Type` value as it stands.
    pub fn content_type(&self) -> (r: Option<&str>)
        requires
            self.wf(),
        ensures
            match r {
                Some(value) => lookup(self@, HEADER_CONTENT_TYPE@) == Some(value@),
                None => lookup(self@, HEADER_CONTENT_TYPE@) is None,
            },
    {
        self.get(HEADER_CONTENT_TYPE)
    }

    /// The first `Connection` value as it stands.
    pub fn connection(&self) -> (r: Option<&str>)
        requires
            self.wf(),
        ensures
            match r {
                Some(value) => lookup(self@, HEADER_CONNECTION@) == Some(value@),
                None => lookup(self@, HEADER_CONNECTION@) is None,
            },
    {
        self.get(HEADER_CONNECTION)
    }

    /// The encodings that the first `Accept-Encoding` value lists.
    pub fn accept_encodings(&self) -> (r: Option<Vec<String>>)
        requires
            self.wf(),
        ensures
            match r {
                Some(list) => accepted_encodings(self@) == Some(texts(list@)),
                None => accepted_encodings(self@) is None,
            },
    {
        let value = match self.get(HEADER_ACCEPT_ENCODING) {
            Some(value) => value,
            None => {
                return None;
            },
        };
        let bytes = value.as_bytes();
        let pieces = split_bytes(bytes, COMMA);
        let ghost expected = split_on(bytes@, COMMA).map_values(
            |t: Seq<u8>| trimmed(decode_utf8(t)),
        );
        proof {
            vstd::utf8::encode_utf8_valid_utf8(value@);
            lemma_split_valid(bytes@, COMMA);
        }
        let mut list: Vec<String> = Vec::new();
        let mut i: usize = 0;
        while i < pieces.len()
            invariant
                i <= pieces@.len(),
                views(pieces@) == split_on(bytes@, COMMA),
                forall|k: int|
                    0 <= k < split_on(bytes@, COMMA).len() ==> valid_utf8(
                        #[trigger] split_on(bytes@, COMMA)[k],
                    ),
                expected == split_on(bytes@, COMMA).map_values(
                    |t: Seq<u8>| trimmed(decode_utf8(t)),
                ),
                texts(list@) == expected.take(i as int),
            decreases pieces.len() - i,
        {
            assert(views(pieces@)[i as int] == pieces@[i as int]@);
            assert(valid_utf8(split_on(bytes@, COMMA)[i as int]));
            let token = match utf8_str(pieces[i].as_slice()) {
                Some(token) => token,
                None => "",
            };
            let ghost before = texts(list@);
            list.push(trim(token).to_owned());
            proof {
                assert(texts(list@) =~= before.push(trimmed(token@)));
                assert(expected.take(i + 1) =~= expected.take(i as int).push(expected[i as int]));
            }
            i += 1;
        }
        assert(expected.take(i as int) =~= expected);
        Some(list)
    }

    /// A table that holds the same headers.
    pub fn duplicate(&self) -> (r: Self)
        ensures
            r@ == self@,
    {
        let mut entries: Vec<HeaderEntry> = Vec::new();
        let mut i: usize = 0;
        while i < self.entries.len()
            invariant
                i <= self.entries@.len(),
                entries@.map_values(|e: HeaderEntry| e.model()) == self@.take(i as int),
            decreases self.entries.len() - i,
        {
            let source = &self.entries[i];
            let mut values: Vec<String> = Vec::new();
            let mut k: usize = 0;
            while k < source.values.len()
                invariant
                    k <= source.values@.len(),
                    texts(values@) == texts(source.values@).take(k as int),
                decreases source.values.len() - k,
            {
                let ghost before = texts(values@);
                values.push(source.values[k].clone());
                proof {
                    assert(texts(values@) =~= before.push(source.values@[k as int]@));
                    assert(texts(source.values@).take(k + 1) =~= texts(source.values@).take(
                        k as int,
                    ).push(source.values@[k as int]@));
                }
                k += 1;
            }
            assert(texts(source.values@).take(k as int) =~= texts(source.values@));
            let ghost before = entries@.map_values(|e: HeaderEntry| e.model());
            let entry = HeaderEntry { name: source.name.clone(), values };
            entries.push(entry);
            proof {
                assert(entries@.map_values(|e: HeaderEntry| e.model()) =~= before.push(
                    entry.model(),
                ));
                assert(self@.take(i + 1) =~= self@.take(i as int).push(self@[i as int]));
            }
            i += 1;
        }
        assert(self@.take(i as int) =~= self@);
        Headers { entries }
    }
}

/// The headers of a table on the wire are their lines, each with its
/// terminator.
pub proof fn lemma_header_block_lines(m: HeaderModel)
    ensures
        header_block(m) == joined_lines(header_texts(m)),
    decreases m.len(),
{
    if m.len() > 0 {
        lemma_header_block_lines(m.drop_last());
        assert(header_texts(m).drop_last() =~= header_texts(m.drop_last()));
        assert(header_block(m) =~= joined_lines(header_texts(m)));
    }
}

/// The values of one header as one text: separated by a comma and a space.
pub open spec fn joined_text(values: Seq<Seq<char>>) -> Seq<char>
    decreases values.len(),
{
    if values.len() == 0 {
        Seq::empty()
    } else if values.len() == 1 {
        values[0]
    } else {
        joined_text(values.drop_last()) + seq![',', ' '] + values.last()
    }
}

/// The values of a header on the wire are the encoding of their joined text.
pub proof fn lemma_joined_is_text(values: Seq<Seq<char>>)
    ensures
        joined_values(values) == encode_utf8(joined_text(values)),
    decreases values.len(),
{
    if values.len() > 1 {
        let earlier = joined_text(values.drop_last());
        let sep = seq![COMMA, SPACE];
        lemma_joined_is_text(values.drop_last());
        lemma_ascii_is_utf8(sep);
        assert(ascii_chars(sep) =~= seq![',', ' ']);
        lemma_encode_concat(earlier, seq![',', ' ']);
        lemma_encode_concat(earlier + seq![',', ' '], values.last());
    }
}

/// A header that was written is read back: the line that `wire_format` makes
/// of a name without a colon and of its values is a header line, and what
/// `read` takes from it is the written name and the written values as one
/// text, joined by a comma and a space, both without the white space around
/// them.
pub proof fn lemma_header_round_trip(name: Seq<char>, values: Seq<Seq<char>>)
    requires
        !name.contains(':'),
    ensures
        valid_utf8(header_text(name, values)),
        header_text(name, values).contains(COLON),
        header_parts(header_text(name, values)) == (trimmed(name), trimmed(joined_text(values))),
{
    let value = joined_text(values);
    let en = encode_utf8(name);
    let ev = encode_utf8(value);
    let sep = seq![COLON, SPACE];
    let line = header_text(name, values);
    let p = en.len() as int;
    lemma_joined_is_text(values);
    vstd::utf8::encode_utf8_valid_utf8(name);
    vstd::utf8::encode_utf8_valid_utf8(value);
    lemma_ascii_is_utf8(sep);
    vstd::utf8::valid_utf8_concat(en, sep);
    vstd::utf8::valid_utf8_concat(en + sep, ev);
    assert(first_at(line, COLON, p)) by {
        assert(line[p] == COLON);
        assert(58u8 as char == ':');
        lemma_no_char_no_byte(name, COLON);
        assert forall|j: int| 0 <= j < p implies line[j] != COLON by {
            assert(line[j] == en[j]);
        }
    }
    lemma_first_at_unique(line, COLON, p);
    assert(line.take(p) =~= en);
    assert(line.skip(p + 1) =~= seq![SPACE] + ev);
    vstd::utf8::encode_utf8_decode_utf8(name);
    vstd::utf8::encode_utf8_decode_utf8(value);
    lemma_decode_after_space(ev);
    let spaced = seq![' '] + value;
    assert(is_whitespace(' '));
    assert(spaced.skip(1) =~= value);
    assert(trimmed_start(spaced) == trimmed_start(value));
}

/// What reading a line makes of a table; nothing where the line is no
/// header line.
pub open spec fn read_into(m: HeaderModel, line: Seq<u8>) -> Option<HeaderModel> {
    if valid_utf8(line) && line.contains(COLON) {
        Some(inserted(m, header_parts(line).0, header_parts(line).1))
    } else {
        None
    }
}

/// What reading lines one after the other makes of a table.
pub open spec fn read_all(m: HeaderModel, lines: Seq<Seq<u8>>) -> Option<HeaderModel>
    decreases lines.len(),
{
    if lines.len() == 0 {
        Some(m)
    } else {
        match read_all(m, lines.drop_last()) {
            Some(table) => read_into(table, lines.last()),
            None => None,
        }
    }
}

/// A table as it comes back from the wire: every name in lower case, with
/// one value, its written values joined and without the white space around
/// them.
pub open spec fn read_back(m: HeaderModel) -> HeaderModel {
    m.map_values(
        |entry: (Seq<char>, Seq<Seq<char>>)|
            (lowercase_of(entry.0), seq![trimmed(joined_text(entry.1))]),
    )
}

/// The names of a table can be told apart after they were written and read:
/// none holds a colon or has white space around it, and no two have the same
/// lower-case form.
pub open spec fn plain_names(m: HeaderModel) -> bool {
    &&& forall|i: int| 0 <= i < m.len() ==> !(#[trigger] m[i]).0.contains(':')
    &&& forall|i: int| 0 <= i < m.len() ==> trimmed((#[trigger] m[i]).0) == m[i].0
    &&& forall|i: int, j: int|
        0 <= i < j < m.len() ==> lowercase_of((#[trigger] m[i]).0) != lowercase_of(
            (#[trigger] m[j]).0,
        )
}

/// The headers of a table that were written are read back: reading the
/// lines of a table with plain names, one after the other, into an empty
/// table gives that table as `read_back` says: no name is lost, none is
/// added, and each has its values as one text.
pub proof fn lemma_headers_read_back(m: HeaderModel)
    requires
        plain_names(m),
    ensures
        read_all(Seq::empty(), header_texts(m)) == Some(read_back(m)),
        well_formed(read_back(m)),
        forall|i: int|
            0 <= i < m.len() ==> lookup(read_back(m), (#[trigger] m[i]).0) == Some(
                trimmed(joined_text(m[i].1)),
            ),
    decreases m.len(),
{
    let back = read_back(m);
    assert forall|i: int, j: int| 0 <= i < j < back.len() implies back[i].0 != back[j].0 by {
        assert(back[i].0 == lowercase_of(m[i].0));
        assert(back[j].0 == lowercase_of(m[j].0));
    }
    assert forall|i: int| 0 <= i < back.len() implies (#[trigger] back[i]).1.len() > 0 by {
        assert(back[i].1 == seq![trimmed(joined_text(m[i].1))]);
    }
    assert forall|i: int| 0 <= i < m.len() implies lookup(back, (#[trigger] m[i]).0) == Some(
        trimmed(joined_text(m[i].1)),
    ) by {
        assert(back[i].0 == lowercase_of(m[i].0));
        lemma_slot(back, lowercase_of(m[i].0), i);
    }
    if m.len() > 0 {
        let earlier = m.drop_last();
        let last = m.last();
        assert(plain_names(earlier)) by {
            assert forall|i: int| 0 <= i < earlier.len() implies !(#[trigger] earlier[i]).0.contains(
                ':',
            ) && trimmed(earlier[i].0) == earlier[i].0 by {
                assert(earlier[i] == m[i]);
            }
            assert forall|i: int, j: int| 0 <= i < j < earlier.len() implies lowercase_of(
                (#[trigger] earlier[i]).0,
            ) != lowercase_of((#[trigger] earlier[j]).0) by {
                assert(earlier[i] == m[i]);
                assert(earlier[j] == m[j]);
            }
        }
        lemma_headers_read_back(earlier);
        lemma_header_round_trip(last.0, last.1);
        assert(header_texts(m).drop_last() =~= header_texts(earlier));
        assert(header_texts(m).last() == header_text(last.0, last.1));
        let before = read_back(earlier);
        let key = lowercase_of(last.0);
        assert(!has_name(before, key)) by {
            if has_name(before, key) {
                let i = slot_of(before, key);
                assert(before[i].0 == lowercase_of(earlier[i].0));
                assert(earlier[i] == m[i]);
                assert(last == m[m.len() - 1]);
            }
        }
        assert(back =~= before.push((key, seq![trimmed(joined_text(last.1))])));
    }
}

/// Setting a length and asking for it gives that length back.
pub proof fn lemma_length_round_trip(m: HeaderModel, n: usize)
    requires
        well_formed(m),
    ensures
        well_formed(with_length(m, n)),
        announced_length(with_length(m, n)) == Some(n),
{
    let key = lowercase_of(HEADER_CONTENT_LENGTH@);
    let digits = decimal_digits(n as nat);
    lemma_replaced(m, key, ascii_chars(digits));
    lemma_decimal_round_trip(n as nat);
    lemma_ascii_is_utf8(digits);
}

/// One header as it goes on the wire: the name, a colon and a space, the
/// values separated by a comma and a space, and a line terminator.
pub fn wire_format(name: &String, values: &[String]) -> (r: Vec<u8>)
    ensures
        r@ == header_line(name@, texts(values@)),
{
    let mut result: Vec<u8> = Vec::new();
    let head = name.as_str().as_bytes();
    append_range(&mut result, head, 0, head.len());
    result.push(COLON);
    result.push(SPACE);
    let ghost prefix = encode_utf8(name@) + seq![COLON, SPACE];
    assert(result@ =~= prefix);
    let mut i: usize = 0;
    while i < values.len()
        invariant
            i <= values@.len(),
            prefix == encode_utf8(name@) + seq![COLON, SPACE],
            result@ == prefix + joined_values(texts(values@).take(i as int)),
        decreases values.len() - i,
    {
        let ghost so_far = joined_values(texts(values@).take(i as int));
        if i > 0 {
            result.push(COMMA);
            result.push(SPACE);
        }
        let each = values[i].as_str().as_bytes();
        append_range(&mut result, each, 0, each.len());
        proof {
            let next = texts(values@).take(i + 1);
            assert(next.drop_last() =~= texts(values@).take(i as int));
            assert(next.last() == values@[i as int]@);
            assert(each@.subrange(0, each@.len() as int) =~= each@);
            if i == 0 {
                assert(so_far =~= Seq::<u8>::empty());
                assert(next[0] == values@[0]@);
                assert(result@ =~= prefix + joined_values(next));
            } else {
                assert(result@ =~= prefix + (so_far + seq![COMMA, SPACE] + each@));
            }
        }
        i += 1;
    }
    assert(texts(values@).take(i as int) =~= texts(values@));
    result.push(CR);
    result.push(LF);
    assert(result@ =~= prefix + joined_values(texts(values@)) + crlf());
    result
}

} // verus!
