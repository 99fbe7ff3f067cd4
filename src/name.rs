use vstd::prelude::*;

use crate::time::Timestamp;

verus! {

#[verifier::external_type_specification]
#[verifier::external_body]
pub struct ExParseError(chrono::ParseError);

/// The instant chrono reads from `text` as a `DateTime<Utc>` (relaxed RFC 3339),
/// or `None` when it rejects the text.
pub uninterp spec fn parsed_instant(text: Seq<char>) -> Option<Timestamp>;

/// Relies on `<chrono::DateTime<Utc> as FromStr>::from_str`, read back through
/// `DateTime::timestamp` and `DateTime::timestamp_subsec_nanos`: the outcome
/// depends on the characters alone.
#[verifier::external_body]
fn parse_instant(text: &Vec<char>) -> (r: Result<Timestamp, chrono::ParseError>)
    ensures
        r is Ok <==> parsed_instant(text@) is Some,
        r is Ok ==> parsed_instant(text@) == Some(r->Ok_0),
{
    let text: String = text.iter().collect();
    match text.parse::<chrono::DateTime<chrono::Utc>>() {
        Ok(t) => Ok(Timestamp { secs: t.timestamp(), nanos: t.timestamp_subsec_nanos() }),
        Err(e) => Err(e),
    }
}

/// The date field of an entry's name that does not read as a timestamp.
pub struct DateError {
    pub field: Vec<char>,
    pub cause: chrono::ParseError,
}

/// The position just past the last `/` of `s`, or 0 when it has none.
pub open spec fn name_start(s: Seq<char>) -> int
    decreases s.len(),
{
    if s.len() == 0 {
        0
    } else if s.last() == '/' {
        s.len() as int
    } else {
        name_start(s.drop_last())
    }
}

/// The text of `s` before its first `_` (all of `s` when it has none).
pub open spec fn before_underscore(s: Seq<char>) -> Seq<char>
    decreases s.len(),
{
    if s.len() == 0 {
        s
    } else if s[0] == '_' {
        seq![]
    } else {
        seq![s[0]] + before_underscore(s.drop_first())
    }
}

/// The leading field of the last path segment: where an entry's name carries
/// its timestamp.
pub open spec fn date_field_of(path: Seq<char>) -> Seq<char> {
    before_underscore(path.skip(name_start(path)))
}

proof fn lemma_name_start_bounds(s: Seq<char>)
    ensures
        0 <= name_start(s) <= s.len(),
    decreases s.len(),
{
    if s.len() > 0 {
        lemma_name_start_bounds(s.drop_last());
    }
}

/// The characters of the file name in `path` up to the first `_`, e.g. the
/// date in `backups/2022-10-29T00:00:00Z_home.tar`.
pub fn date_field(path: &str) -> (r: Vec<char>)
    ensures
        r@ == date_field_of(path@),
{
    let mut chars: Vec<char> = Vec::new();
    for c in it: path.chars()
        invariant
            chars@ == it.seq().take(it.index() as int),
    {
        chars.push(c);
    }
    assert(chars@ == path@);
    let mut start: usize = 0;
    let mut i: usize = 0;
    while i < chars.len()
        invariant
            i <= chars@.len(),
            start == name_start(chars@.take(i as int)),
        decreases chars@.len() - i,
    {
        if chars[i] == '/' {
            start = i + 1;
        }
        proof {
            assert(chars@.take(i + 1).drop_last() =~= chars@.take(i as int));
        }
        i = i + 1;
    }
    assert(chars@.take(i as int) =~= chars@);
    proof {
        lemma_name_start_bounds(chars@);
    }
    let mut field: Vec<char> = Vec::new();
    let mut j: usize = start;
    while j < chars.len() && chars[j] != '_'
        invariant
            start <= j <= chars@.len(),
            field@ + before_underscore(chars@.skip(j as int)) == date_field_of(chars@),
            start == name_start(chars@),
        decreases chars@.len() - j,
    {
        proof {
            let rest = chars@.skip(j as int);
            assert(rest.drop_first() =~= chars@.skip(j + 1));
            assert(field@.push(chars@[j as int]) + before_underscore(rest.drop_first()) =~= field@
                + before_underscore(rest));
        }
        field.push(chars[j]);
        j = j + 1;
    }
    proof {
        assert(before_underscore(chars@.skip(j as int)) =~= seq![]);
        assert(field@ =~= field@ + before_underscore(chars@.skip(j as int)));
    }
    field
}

/// The timestamp an entry carries at the start of its file name.
pub fn entry_timestamp(path: &str) -> (r: Result<Timestamp, DateError>)
    ensures
        r is Ok <==> parsed_instant(date_field_of(path@)) is Some,
        r is Ok ==> parsed_instant(date_field_of(path@)) == Some(r->Ok_0),
        r is Err ==> r->Err_0.field@ == date_field_of(path@),
{
    let field = date_field(path);
    match parse_instant(&field) {
        Ok(t) => Ok(t),
        Err(cause) => Err(DateError { field, cause }),
    }
}

} // verus!
