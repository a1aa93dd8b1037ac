//! One line of input: `name;value`, decoded into the city's fingerprint, its
//! name and its reading.

use crate::fnv::{fingerprint, fingerprint_of};
use crate::temp_value::{
    has_sign, lemma_view_injective, magnitude_part, valid_magnitude, valid_value, value_of, TempValue, MAX_READING,
};
use vstd::prelude::*;
use vstd::slice::slice_subrange;
use vstd::std_specs::convert::TryFromSpecImpl;

verus! {

/// ASCII `;`, which parts the name from the value.
pub const DELIMITER: u8 = 59;

/// Why a line is not a record.
#[derive(Clone, Copy, Debug, PartialEq, Eq, Structural)]
pub enum LineError {
    /// No delimiter stands where a value could follow it, or what follows it
    /// is not a value.
    Malformed,
}

/// What a record says: the city's fingerprint, its name, and the reading in
/// tenths.
pub ghost struct Record {
    pub key: u64,
    pub name: Seq<u8>,
    pub tenths: int,
}

/// A decoded record. The name borrows the bytes of the line it was read
/// from, and stays bytes: it is compared, hashed and written out as it came,
/// and never decoded as text.
#[derive(Clone, Copy, Debug)]
pub struct DataLine<'line> {
    key: u64,
    city: &'line [u8],
    temperature: TempValue,
}

/// The delimiter of `line` stands at `p`: a `;` there, and a value after it.
pub open spec fn delimiter_at(line: Seq<u8>, p: int) -> bool {
    &&& 0 <= p < line.len()
    &&& line[p] == DELIMITER
    &&& valid_value(line.subrange(p + 1, line.len() as int))
}

/// `line` is a record: some name, then `;`, then a value.
pub open spec fn valid_line(line: Seq<u8>) -> bool {
    exists|p: int| delimiter_at(line, p)
}

/// Where the delimiter of a valid line stands.
pub open spec fn delimiter_index(line: Seq<u8>) -> int {
    choose|p: int| delimiter_at(line, p)
}

/// The name of a valid line: what precedes its delimiter.
pub open spec fn name_part(line: Seq<u8>) -> Seq<u8> {
    line.subrange(0, delimiter_index(line))
}

/// The value string of a valid line: what follows its delimiter.
pub open spec fn value_part(line: Seq<u8>) -> Seq<u8> {
    line.subrange(delimiter_index(line) + 1, line.len() as int)
}

/// The record that `line` holds, if it is one.
pub open spec fn record_of(line: Seq<u8>) -> Option<Record> {
    if valid_line(line) {
        Some(
            Record {
                key: fingerprint(name_part(line)),
                name: name_part(line),
                tenths: value_of(value_part(line)),
            },
        )
    } else {
        None
    }
}

/// A record as it is well formed: filed under the fingerprint of its name,
/// with a reading that the value grammar can write.
pub open spec fn record_wf(r: Record) -> bool {
    &&& r.key == fingerprint(r.name)
    &&& -MAX_READING <= r.tenths <= MAX_READING
}

/// No delimiter occurs inside a value.
pub proof fn lemma_value_has_no_delimiter(value: Seq<u8>, i: int)
    requires
        valid_value(value),
        0 <= i < value.len(),
    ensures
        value[i] != DELIMITER,
{
    let m = magnitude_part(value);
    assert(valid_magnitude(m));
    if has_sign(value) {
        if i > 0 {
            assert(m[i - 1] == value[i]);
        }
    }
}

/// A line has at most one place for its delimiter, and that place is four,
/// five or six bytes before the end.
pub proof fn lemma_delimiter_unique(line: Seq<u8>, p: int, q: int)
    requires
        delimiter_at(line, p),
        delimiter_at(line, q),
    ensures
        p == q,
        line.len() - 6 <= p <= line.len() - 4,
{
    let n = line.len() as int;
    let vp = line.subrange(p + 1, n);
    let vq = line.subrange(q + 1, n);
    assert(valid_magnitude(magnitude_part(vp)));
    if p < q {
        lemma_value_has_no_delimiter(vp, q - p - 1);
    } else if q < p {
        lemma_value_has_no_delimiter(vq, p - q - 1);
    }
}

/// Every record that a line holds is well formed.
pub proof fn lemma_record_of_wf(line: Seq<u8>)
    requires
        valid_line(line),
    ensures
        record_wf(record_of(line)->Some_0),
{
    let p = delimiter_index(line);
    assert(delimiter_at(line, p));
}

impl<'line> View for DataLine<'line> {
    type V = Record;

    closed spec fn view(&self) -> Record {
        Record { key: self.key, name: self.city@, tenths: self.temperature@ }
    }
}

impl<'line> DataLine<'line> {
    #[verifier::type_invariant]
    spec fn well_formed(self) -> bool {
        record_wf(self@)
    }

    /// The fingerprint of the city's name.
    pub fn key(&self) -> (key: u64)
        ensures
            key == self@.key,
            record_wf(self@),
    {
        proof {
            use_type_invariant(self);
        }
        self.key
    }

    /// The city's name.
    pub fn city(&self) -> (city: &'line [u8])
        ensures
            city@ == self@.name,
    {
        self.city
    }

    /// The reading.
    pub fn temperature(&self) -> (temperature: TempValue)
        ensures
            temperature@ == self@.tenths,
            temperature.is_reading(),
    {
        proof {
            use_type_invariant(self);
        }
        self.temperature
    }

    /// Decodes one line, without its terminator.
    ///
    /// The value is at most five bytes long and at least three, so the
    /// delimiter is looked for four, five and six bytes before the end and
    /// nowhere else; the name is never scanned for it.
    pub fn parse(bytes: &'line [u8]) -> (r: Result<DataLine<'line>, LineError>)
        ensures
            r == parse_line_spec(bytes),
            valid_line(bytes@) ==> r is Ok && Some(r->Ok_0@) == record_of(bytes@),
            !valid_line(bytes@) ==> r is Err && r->Err_0 == LineError::Malformed,
    {
        let n = bytes.len();
        let idx: usize = if n >= 4 && bytes[n - 4] == DELIMITER {
            n - 4
        } else if n >= 5 && bytes[n - 5] == DELIMITER {
            n - 5
        } else if n >= 6 && bytes[n - 6] == DELIMITER {
            n - 6
        } else {
            proof {
                if valid_line(bytes@) {
                    let p = delimiter_index(bytes@);
                    lemma_delimiter_unique(bytes@, p, p);
                }
            }
            return Err(LineError::Malformed);
        };
        let value = slice_subrange(bytes, idx + 1, n);
        let temperature = match TempValue::parse(value) {
            Ok(t) => t,
            Err(_) => {
                proof {
                    if valid_line(bytes@) {
                        let p = delimiter_index(bytes@);
                        lemma_delimiter_unique(bytes@, p, p);
                        let vp = bytes@.subrange(p + 1, n as int);
                        if p < idx {
                            lemma_value_has_no_delimiter(vp, idx - p - 1);
                        }
                    }
                }
                return Err(LineError::Malformed);
            },
        };
        let city = slice_subrange(bytes, 0, idx);
        let key = fingerprint_of(city);
        proof {
            assert(delimiter_at(bytes@, idx as int));
            lemma_delimiter_unique(bytes@, idx as int, delimiter_index(bytes@));
            let line = DataLine { key, city, temperature };
            let spec_line = parse_line_spec(bytes)->Ok_0;
            assert(spec_line.city@ == city@);
            assert(spec_line.city =~= city);
            lemma_view_injective(spec_line.temperature, temperature);
        }
        Ok(DataLine { key, city, temperature })
    }
}

/// What decoding `bytes` gives: the record of the line, its name a slice
/// that holds the name's bytes.
pub closed spec fn parse_line_spec<'line>(bytes: &'line [u8]) -> Result<
    DataLine<'line>,
    LineError,
> {
    match record_of(bytes@) {
        Some(record) => Ok(
            DataLine {
                key: record.key,
                city: choose|city: &'line [u8]| city@ == record.name,
                temperature: choose|t: TempValue| t@ == record.tenths,
            },
        ),
        None => Err(LineError::Malformed),
    }
}

impl<'line> TryFrom<&'line [u8]> for DataLine<'line> {
    type Error = LineError;

    fn try_from(bytes: &'line [u8]) -> (r: Result<DataLine<'line>, LineError>)
        ensures
            valid_line(bytes@) ==> r is Ok && Some(r->Ok_0@) == record_of(bytes@),
            !valid_line(bytes@) ==> r is Err && r->Err_0 == LineError::Malformed,
    {
        DataLine::parse(bytes)
    }
}

impl<'line> TryFromSpecImpl<&'line [u8]> for DataLine<'line> {
    open spec fn obeys_try_from_spec() -> bool {
        true
    }

    open spec fn try_from_spec(bytes: &'line [u8]) -> Result<DataLine<'line>, LineError> {
        parse_line_spec(bytes)
    }
}

} // verus!
