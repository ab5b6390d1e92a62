//! The well-known types: which they are, and the texts that some of them are
//! in JSON.
use vstd::prelude::*;
use vstd::string::{StrSliceExecFns, StringExecFns};
use crate::descriptor::ScalarType;
use crate::text::same_text;

verus! {

/// Which well-known type a message is.
#[derive(Clone, Copy, Debug, PartialEq, Eq, Structural)]
pub enum WktKind {
    Timestamp,
    Duration,
    FieldMask,
    Empty,
    Struct,
    JsonValue,
    ListValue,
    Any,
    /// One of the wrapper types, with the type of what it wraps.
    Wrapper(ScalarType),
}

/// The well-known type of that full name.
pub open spec fn wkt_of(name: Seq<char>) -> Option<WktKind> {
    if name == "google.protobuf.Timestamp"@ {
        Some(WktKind::Timestamp)
    } else if name == "google.protobuf.Duration"@ {
        Some(WktKind::Duration)
    } else if name == "google.protobuf.FieldMask"@ {
        Some(WktKind::FieldMask)
    } else if name == "google.protobuf.Empty"@ {
        Some(WktKind::Empty)
    } else if name == "google.protobuf.Struct"@ {
        Some(WktKind::Struct)
    } else if name == "google.protobuf.Value"@ {
        Some(WktKind::JsonValue)
    } else if name == "google.protobuf.ListValue"@ {
        Some(WktKind::ListValue)
    } else if name == "google.protobuf.Any"@ {
        Some(WktKind::Any)
    } else if name == "google.protobuf.DoubleValue"@ {
        Some(WktKind::Wrapper(ScalarType::Double))
    } else if name == "google.protobuf.FloatValue"@ {
        Some(WktKind::Wrapper(ScalarType::Float))
    } else if name == "google.protobuf.Int64Value"@ {
        Some(WktKind::Wrapper(ScalarType::Int64))
    } else if name == "google.protobuf.UInt64Value"@ {
        Some(WktKind::Wrapper(ScalarType::Uint64))
    } else if name == "google.protobuf.Int32Value"@ {
        Some(WktKind::Wrapper(ScalarType::Int32))
    } else if name == "google.protobuf.UInt32Value"@ {
        Some(WktKind::Wrapper(ScalarType::Uint32))
    } else if name == "google.protobuf.BoolValue"@ {
        Some(WktKind::Wrapper(ScalarType::Bool))
    } else if name == "google.protobuf.StringValue"@ {
        Some(WktKind::Wrapper(ScalarType::String))
    } else if name == "google.protobuf.BytesValue"@ {
        Some(WktKind::Wrapper(ScalarType::Bytes))
    } else {
        None
    }
}

impl WktKind {
    /// The well-known type of that full name.
    pub fn from_full_name(name: &str) -> (r: Option<Self>)
        ensures
            r == wkt_of(name@),
    {
        if same_text(name, "google.protobuf.Timestamp") {
            Some(WktKind::Timestamp)
        } else if same_text(name, "google.protobuf.Duration") {
            Some(WktKind::Duration)
        } else if same_text(name, "google.protobuf.FieldMask") {
            Some(WktKind::FieldMask)
        } else if same_text(name, "google.protobuf.Empty") {
            Some(WktKind::Empty)
        } else if same_text(name, "google.protobuf.Struct") {
            Some(WktKind::Struct)
        } else if same_text(name, "google.protobuf.Value") {
            Some(WktKind::JsonValue)
        } else if same_text(name, "google.protobuf.ListValue") {
            Some(WktKind::ListValue)
        } else if same_text(name, "google.protobuf.Any") {
            Some(WktKind::Any)
        } else if same_text(name, "google.protobuf.DoubleValue") {
            Some(WktKind::Wrapper(ScalarType::Double))
        } else if same_text(name, "google.protobuf.FloatValue") {
            Some(WktKind::Wrapper(ScalarType::Float))
        } else if same_text(name, "google.protobuf.Int64Value") {
            Some(WktKind::Wrapper(ScalarType::Int64))
        } else if same_text(name, "google.protobuf.UInt64Value") {
            Some(WktKind::Wrapper(ScalarType::Uint64))
        } else if same_text(name, "google.protobuf.Int32Value") {
            Some(WktKind::Wrapper(ScalarType::Int32))
        } else if same_text(name, "google.protobuf.UInt32Value") {
            Some(WktKind::Wrapper(ScalarType::Uint32))
        } else if same_text(name, "google.protobuf.BoolValue") {
            Some(WktKind::Wrapper(ScalarType::Bool))
        } else if same_text(name, "google.protobuf.StringValue") {
            Some(WktKind::Wrapper(ScalarType::String))
        } else if same_text(name, "google.protobuf.BytesValue") {
            Some(WktKind::Wrapper(ScalarType::Bytes))
        } else {
            None
        }
    }

    /// Whether the type stands under `"value"` when it is wrapped in an `Any`.
    /// `Empty` and plain messages have their fields beside `"@type"`.
    pub fn uses_any_value_wrapping(self) -> (r: bool)
        ensures
            r == !(self is Empty),
    {
        match self {
            WktKind::Empty => false,
            _ => true,
        }
    }
}

// ── Timestamps and durations ────────────────────────────────────────────────

/// A timestamp in text, or why it has none.
pub uninterp spec fn timestamp_text(secs: i64, nanos: i32) -> Result<Seq<char>, Seq<char>>;

/// The timestamp that a text spells, or why it spells none.
pub uninterp spec fn parsed_timestamp(s: Seq<char>) -> Result<(i64, i32), Seq<char>>;

/// A duration in text, or why it has none.
pub uninterp spec fn duration_text(secs: i64, nanos: i32) -> Result<Seq<char>, Seq<char>>;

/// The duration that a text spells, or why it spells none.
pub uninterp spec fn parsed_duration(s: Seq<char>) -> Result<(i64, i32), Seq<char>>;

/// The timestamp lies in the years 1 to 9999.
pub open spec fn timestamp_valid(secs: i64, nanos: i32) -> bool {
    -62_135_596_800 <= secs <= 253_402_300_799 && 0 <= nanos < 1_000_000_000
}

/// The duration is at most ten thousand years, and its parts have one sign.
pub open spec fn duration_valid(secs: i64, nanos: i32) -> bool {
    &&& -315_576_000_000 <= secs <= 315_576_000_000
    &&& -1_000_000_000 < nanos < 1_000_000_000
    &&& !(secs > 0 && nanos < 0)
    &&& !(secs < 0 && nanos > 0)
}

/// `r` is the executable form of `m`.
pub open spec fn spells(r: Result<String, &'static str>, m: Result<Seq<char>, Seq<char>>) -> bool {
    match m {
        Ok(t) => r is Ok && r->Ok_0@ == t,
        Err(e) => r is Err && r->Err_0@ == e,
    }
}

/// `r` is the executable form of `m`.
pub open spec fn parses(
    r: Result<(i64, i32), &'static str>,
    m: Result<(i64, i32), Seq<char>>,
) -> bool {
    match m {
        Ok(p) => r is Ok && r->Ok_0 == p,
        Err(e) => r is Err && r->Err_0@ == e,
    }
}

/// A timestamp in text.
///
/// Calls `buffa::json_helpers::wkt::fmt_timestamp`. It succeeds exactly for
/// timestamps in the valid range; the text is named, not stated. The text is
/// one that `parse_timestamp` turns into the timestamp again.
#[verifier::external_body]
pub(crate) fn fmt_timestamp(secs: i64, nanos: i32) -> (r: Result<String, &'static str>)
    ensures
        spells(r, timestamp_text(secs, nanos)),
        r is Ok <==> timestamp_valid(secs, nanos),
        r matches Ok(t) ==> (parsed_timestamp(t@) matches Ok(p) && p == (secs, nanos)),
{
    buffa::json_helpers::wkt::fmt_timestamp(secs, nanos)
}

/// The timestamp that a text spells.
///
/// Calls `buffa::json_helpers::wkt::parse_timestamp`. What it returns lies in
/// the valid range; which text spells what is named, not stated.
#[verifier::external_body]
pub(crate) fn parse_timestamp(s: &str) -> (r: Result<(i64, i32), &'static str>)
    ensures
        parses(r, parsed_timestamp(s@)),
        r matches Ok(p) ==> timestamp_valid(p.0, p.1),
{
    buffa::json_helpers::wkt::parse_timestamp(s)
}

/// A duration in text.
///
/// Calls `buffa::json_helpers::wkt::fmt_duration`. It succeeds exactly for
/// valid durations; the text is named, not stated. The text is one that
/// `parse_duration` turns into the duration again.
#[verifier::external_body]
pub(crate) fn fmt_duration(secs: i64, nanos: i32) -> (r: Result<String, &'static str>)
    ensures
        spells(r, duration_text(secs, nanos)),
        r is Ok <==> duration_valid(secs, nanos),
        r matches Ok(t) ==> (parsed_duration(t@) matches Ok(p) && p == (secs, nanos)),
{
    buffa::json_helpers::wkt::fmt_duration(secs, nanos)
}

/// The duration that a text spells.
///
/// Calls `buffa::json_helpers::wkt::parse_duration`. What it returns is a valid
/// duration; which text spells what is named, not stated.
#[verifier::external_body]
pub(crate) fn parse_duration(s: &str) -> (r: Result<(i64, i32), &'static str>)
    ensures
        parses(r, parsed_duration(s@)),
        r matches Ok(p) ==> duration_valid(p.0, p.1),
{
    buffa::json_helpers::wkt::parse_duration(s)
}

// ── Field masks ─────────────────────────────────────────────────────────────

/// A path with its words joined by capitals.
pub uninterp spec fn camel_text(path: Seq<char>) -> Seq<char>;

/// A path with its words joined by underscores.
pub uninterp spec fn snake_text(path: Seq<char>) -> Seq<char>;

/// The parts of the path between its dots are names: lower case letters, digits
/// and underscores, at least one of them, and the first of them no digit.
pub open spec fn is_dotted_name(path: Seq<char>) -> bool {
    &&& path.len() > 0
    &&& path.last() != '.'
    &&& forall|i: int|
        0 <= i < path.len() ==> {
            let c = #[trigger] path[i];
            ||| 'a' <= c <= 'z'
            ||| c == '_'
            ||| ('0' <= c <= '9' || c == '.') && i > 0 && path[i - 1] != '.'
        }
}

/// The path can be in a field mask in JSON: it is a star, or made of names that
/// come back when their words are joined by capitals and by underscores again.
pub open spec fn mask_path_valid(path: Seq<char>) -> bool {
    path == "*"@ || is_dotted_name(path) && snake_text(camel_text(path)) == path
}

/// The character is white space, as Unicode has it.
pub open spec fn is_white(c: char) -> bool {
    let n = c as u32;
    9 <= n <= 13 || n == 0x20 || n == 0x85 || n == 0xa0 || n == 0x1680 || 0x2000 <= n <= 0x200a || n
        == 0x2028 || n == 0x2029 || n == 0x202f || n == 0x205f || n == 0x3000
}

/// A string without the white space at its ends.
pub open spec fn trimmed_text(s: Seq<char>) -> Seq<char>
    decreases s.len(),
{
    if s.len() == 0 {
        s
    } else if is_white(s.last()) {
        trimmed_text(s.drop_last())
    } else if is_white(s[0]) {
        trimmed_text(s.skip(1))
    } else {
        s
    }
}

/// The string is not empty, and holds no comma and no white space.
pub open spec fn is_one_part(s: Seq<char>) -> bool {
    s.len() > 0 && forall|i: int|
        0 <= i < s.len() ==> (#[trigger] s[i]) != ',' && !is_white(s[i])
}

/// A path with its words joined by capitals.
///
/// Calls `buffa::json_helpers::wkt::snake_to_camel`. The result is named.
#[verifier::external_body]
fn snake_to_camel(path: &str) -> (r: String)
    ensures
        r@ == camel_text(path@),
{
    buffa::json_helpers::wkt::snake_to_camel(path)
}

/// A path with its words joined by underscores.
///
/// Calls `buffa::json_helpers::wkt::camel_to_snake`. The result is named.
#[verifier::external_body]
fn camel_to_snake(path: &str) -> (r: String)
    ensures
        r@ == snake_text(path@),
{
    buffa::json_helpers::wkt::camel_to_snake(path)
}

/// Whether a path can be in a field mask in JSON.
///
/// Calls `buffa::json_helpers::wkt::field_mask_path_round_trips`. It says so of
/// a star, and of dotted names that come back when their words are joined by
/// capitals and then by underscores. A star comes back too; and where it says
/// so, the path with its words joined by capitals is not empty and holds no
/// comma and no white space.
#[verifier::external_body]
fn field_mask_path_round_trips(path: &str) -> (r: bool)
    ensures
        r == mask_path_valid(path@),
        r ==> snake_text(camel_text(path@)) == path@,
        r ==> is_one_part(camel_text(path@)),
{
    buffa::json_helpers::wkt::field_mask_path_round_trips(path)
}

fn white(c: char) -> (r: bool)
    ensures
        r == is_white(c),
{
    let n: u32 = c as u32;
    9 <= n && n <= 13 || n == 0x20 || n == 0x85 || n == 0xa0 || n == 0x1680 || 0x2000 <= n && n
        <= 0x200a || n == 0x2028 || n == 0x2029 || n == 0x202f || n == 0x205f || n == 0x3000
}

/// A string without the white space at its ends.
fn trimmed(s: &str) -> (r: &str)
    ensures
        r@ == trimmed_text(s@),
{
    let mut hi: usize = s.unicode_len();
    assert(s@.subrange(0, hi as int) =~= s@);
    while hi > 0 && white(s.get_char(hi - 1))
        invariant
            hi <= s@.len(),
            trimmed_text(s@) == trimmed_text(s@.subrange(0, hi as int)),
        decreases hi,
    {
        assert(s@.subrange(0, hi as int).drop_last() =~= s@.subrange(0, hi - 1));
        hi = hi - 1;
    }
    let mut lo: usize = 0;
    while lo < hi && white(s.get_char(lo))
        invariant
            lo <= hi <= s@.len(),
            hi > 0 ==> !is_white(s@[hi - 1]),
            trimmed_text(s@) == trimmed_text(s@.subrange(lo as int, hi as int)),
        decreases hi - lo,
    {
        assert(s@.subrange(lo as int, hi as int).skip(1) =~= s@.subrange(lo + 1, hi as int));
        lo = lo + 1;
    }
    s.substring_char(lo, hi)
}

/// A path of a mask in JSON, or why it has none.
pub open spec fn mask_camel(path: Seq<char>) -> Result<Seq<char>, Seq<char>> {
    if mask_path_valid(path) {
        Ok(camel_text(path))
    } else {
        Err("FieldMask path does not round-trip through camelCase"@)
    }
}

/// The path that a text in a JSON mask spells, or why it spells none.
pub open spec fn mask_snake(text: Seq<char>) -> Result<Seq<char>, Seq<char>> {
    if camel_text(snake_text(text)) != text {
        Err("FieldMask JSON path is not canonical lowerCamelCase"@)
    } else {
        Ok(snake_text(text))
    }
}

/// Joins the words of a path by capitals; refuses a path that would not come
/// back. What it gives, `field_mask_to_snake` turns into the path again.
pub fn field_mask_to_camel(path: &str) -> (r: Result<String, &'static str>)
    ensures
        spells(r, mask_camel(path@)),
        r matches Ok(t) ==> mask_snake(t@) == Ok::<Seq<char>, Seq<char>>(path@) && is_one_part(t@),
{
    if !field_mask_path_round_trips(path) {
        return Err("FieldMask path does not round-trip through camelCase");
    }
    Ok(snake_to_camel(path))
}

/// Joins the words of a path by underscores; refuses a path that would not
/// come back.
pub fn field_mask_to_snake(path: &str) -> (r: Result<String, &'static str>)
    ensures
        spells(r, mask_snake(path@)),
{
    let snake = camel_to_snake(path);
    if !same_text(snake_to_camel(snake.as_str()).as_str(), path) {
        return Err("FieldMask JSON path is not canonical lowerCamelCase");
    }
    Ok(snake)
}

/// The parts of a string between its commas.
pub open spec fn split_commas(s: Seq<char>) -> Seq<Seq<char>>
    decreases s.len(),
{
    if s.len() == 0 {
        seq![Seq::empty()]
    } else {
        let parts = split_commas(s.drop_last());
        if s.last() == ',' {
            parts.push(Seq::empty())
        } else {
            parts.drop_last().push(parts.last().push(s.last()))
        }
    }
}

/// Strings with commas between them.
pub open spec fn join_commas(parts: Seq<Seq<char>>) -> Seq<char>
    decreases parts.len(),
{
    if parts.len() == 0 {
        Seq::empty()
    } else if parts.len() == 1 {
        parts[0]
    } else {
        join_commas(parts.drop_last()) + ","@ + parts.last()
    }
}

/// The paths of a mask in JSON, or what is wrong with the first that is wrong.
pub open spec fn mask_camels(paths: Seq<Seq<char>>) -> Result<Seq<Seq<char>>, Seq<char>>
    decreases paths.len(),
{
    if paths.len() == 0 {
        Ok(Seq::empty())
    } else {
        match mask_camels(paths.drop_last()) {
            Err(e) => Err(e),
            Ok(done) => match mask_camel(paths.last()) {
                Err(e) => Err(e),
                Ok(t) => Ok(done.push(t)),
            },
        }
    }
}

/// A mask in JSON.
pub open spec fn mask_json(paths: Seq<Seq<char>>) -> Result<Seq<char>, Seq<char>> {
    match mask_camels(paths) {
        Ok(parts) => Ok(join_commas(parts)),
        Err(e) => Err(e),
    }
}

/// The paths that parts of a JSON mask spell, or what is wrong with the first
/// that is wrong.
pub open spec fn mask_snakes(parts: Seq<Seq<char>>) -> Result<Seq<Seq<char>>, Seq<char>>
    decreases parts.len(),
{
    if parts.len() == 0 {
        Ok(Seq::empty())
    } else {
        match mask_snakes(parts.drop_last()) {
            Err(e) => Err(e),
            Ok(done) => match mask_snake(trimmed_text(parts.last())) {
                Err(e) => Err(e),
                Ok(t) => Ok(done.push(t)),
            },
        }
    }
}

/// The paths that a JSON mask spells: none, where it is empty.
pub open spec fn mask_paths(s: Seq<char>) -> Result<Seq<Seq<char>>, Seq<char>> {
    if s.len() == 0 {
        Ok(Seq::empty())
    } else {
        mask_snakes(split_commas(s))
    }
}

/// What strings stand for.
pub open spec fn texts_view(s: Seq<&str>) -> Seq<Seq<char>> {
    Seq::new(s.len(), |i: int| s[i]@)
}

/// What strings stand for.
pub open spec fn strings_view(s: Seq<String>) -> Seq<Seq<char>> {
    Seq::new(s.len(), |i: int| s[i]@)
}

proof fn lemma_split_append(a: Seq<char>, b: Seq<char>)
    requires
        forall|i: int| 0 <= i < b.len() ==> b[i] != ',',
    ensures
        split_commas(a).len() > 0,
        split_commas(a + b) == split_commas(a).drop_last().push(split_commas(a).last() + b),
    decreases a.len() + b.len(),
{
    if a.len() > 0 {
        lemma_split_append(a.drop_last(), Seq::empty());
    }
    let parts = split_commas(a);
    if b.len() == 0 {
        assert(a + b =~= a);
        assert(parts.last() + b =~= parts.last());
        assert(parts.drop_last().push(parts.last()) =~= parts);
    } else {
        let c = b.drop_last();
        lemma_split_append(a, c);
        assert((a + b).drop_last() =~= a + c);
        assert((a + b).last() == b.last());
        let more = parts.drop_last().push(parts.last() + c);
        assert(more.drop_last() =~= parts.drop_last());
        assert((parts.last() + c).push(b.last()) =~= parts.last() + b);
    }
}

proof fn lemma_split_join(parts: Seq<Seq<char>>)
    requires
        parts.len() > 0,
        forall|i: int| 0 <= i < parts.len() ==> is_one_part(#[trigger] parts[i]),
    ensures
        split_commas(join_commas(parts)) == parts,
        join_commas(parts).len() > 0,
    decreases parts.len(),
{
    let last = parts.last();
    assert(is_one_part(parts[parts.len() - 1]));
    if parts.len() == 1 {
        let none = Seq::<char>::empty();
        lemma_split_append(none, last);
        assert(none + last =~= last);
        assert(split_commas(none).drop_last().push(none + last) =~= parts);
    } else {
        let front = parts.drop_last();
        lemma_split_join(front);
        reveal_strlit(",");
        let joined = join_commas(front) + ","@;
        assert(","@ =~= seq![',']);
        assert(joined =~= join_commas(front).push(','));
        assert(joined.drop_last() =~= join_commas(front));
        lemma_split_append(joined, last);
        let none = Seq::<char>::empty();
        assert(front.push(none).drop_last() =~= front);
        assert(none + last =~= last);
        assert(front.push(last) =~= parts);
    }
}

proof fn lemma_snakes_of(parts: Seq<Seq<char>>, paths: Seq<Seq<char>>)
    requires
        parts.len() == paths.len(),
        forall|i: int|
            0 <= i < parts.len() ==> is_one_part(#[trigger] parts[i]) && mask_snake(parts[i]) == Ok::<
                Seq<char>,
                Seq<char>,
            >(paths[i]),
    ensures
        mask_snakes(parts) == Ok::<Seq<Seq<char>>, Seq<char>>(paths),
    decreases parts.len(),
{
    if parts.len() > 0 {
        lemma_snakes_of(parts.drop_last(), paths.drop_last());
        let last = parts[parts.len() - 1];
        assert(is_one_part(last));
        assert(!is_white(last[last.len() - 1]));
        assert(!is_white(last[0]));
        assert(paths.drop_last().push(paths.last()) =~= paths);
    } else {
        assert(paths =~= Seq::<Seq<char>>::empty());
    }
}

/// Writes a mask. What it gives, `parse_field_mask` turns into the paths again.
pub fn fmt_field_mask(paths: &Vec<&str>) -> (r: Result<String, &'static str>)
    ensures
        spells(r, mask_json(texts_view(paths@))),
        r matches Ok(t) ==> mask_paths(t@) == Ok::<Seq<Seq<char>>, Seq<char>>(texts_view(paths@)),
{
    let ghost all = texts_view(paths@);
    let mut out = String::new();
    let ghost mut parts: Seq<Seq<char>> = Seq::empty();
    let mut i: usize = 0;
    assert(all.take(0) =~= Seq::<Seq<char>>::empty());
    while i < paths.len()
        invariant
            all == texts_view(paths@),
            i <= paths@.len(),
            parts.len() == i,
            mask_camels(all.take(i as int)) == Ok::<Seq<Seq<char>>, Seq<char>>(parts),
            out@ == join_commas(parts),
            forall|j: int|
                0 <= j < i ==> is_one_part(#[trigger] parts[j]) && mask_snake(parts[j]) == Ok::<
                    Seq<char>,
                    Seq<char>,
                >(all[j]),
        decreases paths@.len() - i,
    {
        proof {
            assert(all.take(i + 1).drop_last() =~= all.take(i as int));
            assert(all.take(i + 1).last() == paths@[i as int]@);
        }
        match field_mask_to_camel(paths[i]) {
            Err(e) => {
                proof {
                    lemma_camels_stop(all, i as int + 1);
                }
                return Err(e);
            },
            Ok(t) => {
                let ghost more = parts.push(t@);
                assert(more.drop_last() =~= parts);
                if i > 0 {
                    out.append(",");
                }
                out.append(t.as_str());
                proof {
                    if i == 0 {
                        assert(parts =~= Seq::<Seq<char>>::empty());
                        assert(Seq::<char>::empty() + t@ =~= t@);
                    }
                    parts = more;
                }
            },
        }
        i = i + 1;
    }
    proof {
        assert(all.take(i as int) =~= all);
        lemma_snakes_of(parts, all);
        if parts.len() > 0 {
            lemma_split_join(parts);
        } else {
            assert(all =~= Seq::<Seq<char>>::empty());
        }
    }
    Ok(out)
}

proof fn lemma_camels_stop(paths: Seq<Seq<char>>, n: int)
    requires
        0 <= n <= paths.len(),
        mask_camels(paths.take(n)) is Err,
    ensures
        mask_camels(paths) == mask_camels(paths.take(n)),
    decreases paths.len() - n,
{
    if n < paths.len() {
        assert(paths.take(n + 1).drop_last() =~= paths.take(n));
        lemma_camels_stop(paths, n + 1);
    } else {
        assert(paths.take(n) =~= paths);
    }
}

proof fn lemma_snakes_stop(parts: Seq<Seq<char>>, n: int)
    requires
        0 <= n <= parts.len(),
        mask_snakes(parts.take(n)) is Err,
    ensures
        mask_snakes(parts) == mask_snakes(parts.take(n)),
    decreases parts.len() - n,
{
    if n < parts.len() {
        assert(parts.take(n + 1).drop_last() =~= parts.take(n));
        lemma_snakes_stop(parts, n + 1);
    } else {
        assert(parts.take(n) =~= parts);
    }
}

/// The parts of a string between its commas.
fn split_at_commas(s: &str) -> (r: Vec<&str>)
    ensures
        texts_view(r@) == split_commas(s@),
{
    let n = s.unicode_len();
    let mut out: Vec<&str> = Vec::new();
    let mut start: usize = 0;
    let mut i: usize = 0;
    assert(s@.take(0) =~= Seq::<char>::empty());
    assert(texts_view(out@).push(s@.subrange(0, 0)) =~= seq![Seq::<char>::empty()]);
    while i < n
        invariant
            n == s@.len(),
            start <= i <= n,
            split_commas(s@.take(i as int)) == texts_view(out@).push(
                s@.subrange(start as int, i as int),
            ),
        decreases n - i,
    {
        let ghost prev = s@.take(i as int);
        let ghost next = s@.take(i + 1);
        let ghost was = texts_view(out@);
        proof {
            assert(next.drop_last() =~= prev);
            assert(was.push(s@.subrange(start as int, i as int)).drop_last() =~= was);
        }
        if s.get_char(i) == ',' {
            let part = s.substring_char(start, i);
            out.push(part);
            start = i + 1;
            proof {
                assert(texts_view(out@) =~= was.push(part@));
                assert(s@.subrange(i + 1, i + 1) =~= Seq::<char>::empty());
            }
        } else {
            assert(s@.subrange(start as int, i + 1) =~= s@.subrange(start as int, i as int).push(
                s@[i as int],
            ));
        }
        i = i + 1;
    }
    let part = s.substring_char(start, n);
    let ghost was = texts_view(out@);
    out.push(part);
    proof {
        assert(texts_view(out@) =~= was.push(part@));
        assert(s@.take(n as int) =~= s@);
    }
    out
}

/// Reads a mask.
pub fn parse_field_mask(s: &str) -> (r: Result<Vec<String>, &'static str>)
    ensures
        match mask_paths(s@) {
            Ok(p) => r is Ok && strings_view(r->Ok_0@) == p,
            Err(e) => r is Err && r->Err_0@ == e,
        },
{
    let mut out: Vec<String> = Vec::new();
    assert(strings_view(out@) =~= Seq::<Seq<char>>::empty());
    if s.is_empty() {
        return Ok(out);
    }
    let parts = split_at_commas(s);
    let ghost all = texts_view(parts@);
    let mut i: usize = 0;
    assert(all.take(0) =~= Seq::<Seq<char>>::empty());
    while i < parts.len()
        invariant
            s@.len() > 0,
            all == texts_view(parts@),
            all == split_commas(s@),
            i <= parts@.len(),
            mask_snakes(all.take(i as int)) == Ok::<Seq<Seq<char>>, Seq<char>>(
                strings_view(out@),
            ),
        decreases parts@.len() - i,
    {
        proof {
            assert(all.take(i + 1).drop_last() =~= all.take(i as int));
            assert(all.take(i + 1).last() == parts@[i as int]@);
        }
        match field_mask_to_snake(trimmed(parts[i])) {
            Err(e) => {
                proof {
                    lemma_snakes_stop(all, i as int + 1);
                }
                return Err(e);
            },
            Ok(t) => {
                let ghost was = strings_view(out@);
                let ghost t0 = t@;
                out.push(t);
                assert(strings_view(out@) =~= was.push(t0));
            },
        }
        i = i + 1;
    }
    assert(all.take(i as int) =~= all);
    Ok(out)
}

} // verus!
