//! Reading options for rating datasets stored as delimited text, and the
//! rules that turn one row of such a file into a record.
use crate::sparse::Rating;
use vstd::prelude::*;
use vstd::utf8::encode_utf8;

verus! {

/// Possible fields on a dataset.
#[derive(Clone, Copy, Debug, PartialEq, Eq, Structural)]
pub enum Field {
    UserID,
    ItemID,
    Rating,
    Other,
}

/// Possible errors when reading a dataset.
#[derive(Clone, Copy, Debug, PartialEq, Eq, Structural)]
pub enum ReadError {
    /// The fields do not name a user, an item and a rating column.
    InconsistentFields,
    /// A row has fewer columns than the fields name.
    MissingColumn,
    /// A user or item column does not hold a numeric ID.
    BadId,
    /// The rating column does not hold a rating.
    BadRating,
}

/// A record of a dataset: a user ID, an item ID and a rating.
pub type Record = (String, String, Rating);

/// Position of the last `f` in `fields`, or `-1` when there is none.
pub open spec fn last_position(fields: Seq<Field>, f: Field) -> int
    decreases fields.len(),
{
    if fields.len() == 0 {
        -1
    } else if fields.last() == f {
        fields.len() - 1
    } else {
        last_position(fields.drop_last(), f)
    }
}

/// The columns of the user, the item and the rating that `fields` name: for
/// each, its last position; an error when one is missing.
pub open spec fn columns_of(fields: Seq<Field>) -> Result<(usize, usize, usize), ReadError> {
    let u = last_position(fields, Field::UserID);
    let i = last_position(fields, Field::ItemID);
    let r = last_position(fields, Field::Rating);
    if u < 0 || i < 0 || r < 0 {
        Err(ReadError::InconsistentFields)
    } else {
        Ok((u as usize, i as usize, r as usize))
    }
}

proof fn lemma_last_position_bound(fields: Seq<Field>, f: Field)
    ensures
        -1 <= last_position(fields, f) < fields.len(),
    decreases fields.len(),
{
    if fields.len() > 0 {
        lemma_last_position_bound(fields.drop_last(), f);
    }
}

/// `b` is an ASCII digit.
pub open spec fn is_digit(b: u8) -> bool {
    48 <= b <= 57
}

/// Number of leading ASCII digits of `s`.
pub open spec fn digit_run(s: Seq<u8>) -> nat
    decreases s.len(),
{
    if s.len() > 0 && is_digit(s[0]) {
        1 + digit_run(s.drop_first())
    } else {
        0
    }
}

/// The number the decimal digits `s` write.
pub open spec fn digits_value(s: Seq<u8>) -> int
    decreases s.len(),
{
    if s.len() == 0 {
        0
    } else {
        digits_value(s.drop_last()) * 10 + (s.last() - 48)
    }
}

/// The hundredths that a fraction of at most two digits writes.
pub open spec fn fraction_value(f: Seq<u8>) -> int {
    if f.len() == 0 {
        0
    } else if f.len() == 1 {
        (f[0] - 48) * 10
    } else {
        (f[0] - 48) * 10 + (f[1] - 48)
    }
}

/// The hundredths an unsigned decimal writes: one or more digits, then
/// optionally a point and one or two digits.
pub open spec fn magnitude_text(s: Seq<u8>) -> Option<int> {
    let n = digit_run(s);
    let whole = digits_value(s.take(n as int));
    let rest = s.skip(n as int);
    if n == 0 {
        None
    } else if rest.len() == 0 {
        Some(whole * 100)
    } else if rest[0] == 46 && 2 <= rest.len() <= 3 && digit_run(rest.skip(1)) == rest.len() - 1 {
        Some(whole * 100 + fraction_value(rest.skip(1)))
    } else {
        None
    }
}

/// The rating, in hundredths, that the text `s` writes: an optional minus
/// sign and an unsigned decimal; `None` for other text or for a value that a
/// rating cannot hold.
pub open spec fn rating_text(s: Seq<u8>) -> Option<int> {
    let neg = s.len() > 0 && s[0] == 45;
    let body = if neg {
        s.skip(1)
    } else {
        s
    };
    match magnitude_text(body) {
        Some(m) => {
            let v = if neg {
                -m
            } else {
                m
            };
            if -0x8000 <= v < 0x8000 {
                Some(v)
            } else {
                None
            }
        },
        None => None,
    }
}

proof fn lemma_digit_run_prefix(s: Seq<u8>, k: int)
    requires
        0 <= k <= s.len(),
        forall|j: int| 0 <= j < k ==> is_digit(#[trigger] s[j]),
    ensures
        digit_run(s) >= k,
        k == s.len() || !is_digit(s[k]) ==> digit_run(s) == k,
    decreases k,
{
    if k > 0 {
        let t = s.drop_first();
        assert forall|j: int| 0 <= j < k - 1 implies is_digit(#[trigger] t[j]) by {
            assert(t[j] == s[j + 1]);
        }
        lemma_digit_run_prefix(t, k - 1);
        if k == s.len() || !is_digit(s[k]) {
            assert(k - 1 == t.len() || t[k - 1] == s[k]);
        }
    }
}

/// The digit value of byte `b`.
fn digit_of(b: u8) -> (r: Option<u64>)
    ensures
        match r {
            Some(d) => is_digit(b) && d == b - 48,
            None => !is_digit(b),
        },
{
    if 48 <= b && b <= 57 {
        Some((b - 48) as u64)
    } else {
        None
    }
}

/// Parses a rating written as a decimal with at most two fractional digits
/// (`"4"`, `"-3.5"`, `"0.25"`) into hundredths.
pub fn parse_rating(text: &str) -> (r: Option<Rating>)
    ensures
        match rating_text(encode_utf8(text@)) {
            Some(v) => r == Some(v as Rating),
            None => r is None,
        },
{
    let b = text.as_bytes();
    let ghost s = encode_utf8(text@);
    let len = b.len();
    let neg = len > 0 && b[0] == 45;
    let start: usize = if neg {
        1
    } else {
        0
    };
    let ghost body = if neg {
        s.skip(1)
    } else {
        s
    };
    assert(body =~= s.skip(start as int));
    let mut pos = start;
    let mut whole: u64 = 0;
    let mut big = false;
    while pos < len
        invariant
            b@ == s,
            len == s.len(),
            start <= pos <= len,
            body == s.skip(start as int),
            forall|j: int| start <= j < pos ==> is_digit(#[trigger] s[j]),
            !big ==> whole == digits_value(body.take(pos - start)) && whole <= 1000,
            big ==> digits_value(body.take(pos - start)) > 1000,
        ensures
            start <= pos <= len,
            pos == len || !is_digit(s[pos as int]),
            forall|j: int| start <= j < pos ==> is_digit(#[trigger] s[j]),
            !big ==> whole == digits_value(body.take(pos - start)) && whole <= 1000,
            big ==> digits_value(body.take(pos - start)) > 1000,
        decreases len - pos,
    {
        match digit_of(b[pos]) {
            Some(d) => {
                proof {
                    let t = body.take(pos - start + 1);
                    assert(t.drop_last() =~= body.take(pos - start));
                    assert(t.last() == s[pos as int]);
                }
                if !big {
                    whole = whole * 10 + d;
                    if whole > 1000 {
                        big = true;
                    }
                } else {
                    proof {
                        let t = body.take(pos - start + 1);
                        assert(digits_value(t) >= digits_value(body.take(pos - start)) * 10);
                    }
                }
                pos = pos + 1;
            },
            None => {
                break ;
            },
        }
    }
    proof {
        assert forall|j: int| 0 <= j < pos - start implies is_digit(#[trigger] body[j]) by {
            assert(body[j] == s[j + start]);
        }
        lemma_digit_run_prefix(body, pos - start);
        assert(pos == len || !is_digit(s[pos as int]));
        if pos < len {
            assert(body[pos - start] == s[pos as int]);
        }
    }
    let n = pos - start;
    if n == 0 {
        return None;
    }
    let mut frac: u64 = 0;
    if pos < len {
        if b[pos] != 46 || len - pos < 2 || len - pos > 3 {
            return None;
        }
        let ghost rest = body.skip(n as int);
        assert(rest[0] == s[pos as int]);
        let d1 = match digit_of(b[pos + 1]) {
            Some(d) => d,
            None => {
                proof {
                    assert(rest.skip(1)[0] == s[pos + 1]);
                    lemma_digit_run_prefix(rest.skip(1), 0);
                }
                return None;
            },
        };
        frac = d1 * 10;
        if len - pos == 3 {
            let d2 = match digit_of(b[pos + 2]) {
                Some(d) => d,
                None => {
                    proof {
                        assert(rest.skip(1)[0] == s[pos + 1]);
                        assert(rest.skip(1)[1] == s[pos + 2]);
                        lemma_digit_run_prefix(rest.skip(1), 1);
                    }
                    return None;
                },
            };
            frac = frac + d2;
            proof {
                assert(rest.skip(1)[0] == s[pos + 1]);
                assert(rest.skip(1)[1] == s[pos + 2]);
                lemma_digit_run_prefix(rest.skip(1), 2);
            }
        } else {
            proof {
                assert(rest.skip(1)[0] == s[pos + 1]);
                lemma_digit_run_prefix(rest.skip(1), 1);
            }
        }
    } else {
        assert(body.skip(n as int).len() == 0);
    }
    if big {
        proof {
            assert(digits_value(body.take(n as int)) > 1000);
        }
        return None;
    }
    let magnitude = whole * 100 + frac;
    if neg {
        if magnitude > 32768 {
            None
        } else {
            Some((0 - (magnitude as i32)) as Rating)
        }
    } else {
        if magnitude > 32767 {
            None
        } else {
            Some(magnitude as Rating)
        }
    }
}

/// Takes the user ID, the item ID and the rating out of one row, at the
/// given columns.
pub fn parse_record(row: &Vec<String>, columns: (usize, usize, usize)) -> (r: Result<Record, ReadError>)
    ensures
        columns.0 >= row@.len() || columns.1 >= row@.len() || columns.2 >= row@.len() ==> r
            == Err::<Record, ReadError>(ReadError::MissingColumn),
        columns.0 < row@.len() && columns.1 < row@.len() && columns.2 < row@.len() ==> match r {
            Ok(rec) => rec.0@ == row@[columns.0 as int]@ && rec.1@ == row@[columns.1 as int]@
                && rating_text(encode_utf8(row@[columns.2 as int]@)) == Some(rec.2 as int),
            Err(e) => e == ReadError::BadRating && rating_text(
                encode_utf8(row@[columns.2 as int]@),
            ) is None,
        },
{
    let (u, i, k) = columns;
    if u >= row.len() || i >= row.len() || k >= row.len() {
        return Err(ReadError::MissingColumn);
    }
    match parse_rating(row[k].as_str()) {
        Some(rating) => Ok((row[u].clone(), row[i].clone(), rating)),
        None => Err(ReadError::BadRating),
    }
}

/// The identifier the text `s` writes: one or more decimal digits, for a
/// value that fits in 32 bits.
pub open spec fn id_text(s: Seq<u8>) -> Option<int> {
    if s.len() > 0 && digit_run(s) == s.len() && digits_value(s) <= u32::MAX {
        Some(digits_value(s))
    } else {
        None
    }
}

/// Parses a numeric identifier written in decimal digits.
pub fn parse_id(text: &str) -> (r: Option<u32>)
    ensures
        match id_text(encode_utf8(text@)) {
            Some(v) => 0 <= v <= u32::MAX && r == Some(v as u32),
            None => r is None,
        },
{
    let b = text.as_bytes();
    let ghost s = encode_utf8(text@);
    let len = b.len();
    let mut pos: usize = 0;
    let mut value: u64 = 0;
    let mut big = false;
    while pos < len
        invariant
            s == encode_utf8(text@),
            b@ == s,
            len == s.len(),
            pos <= len,
            forall|j: int| 0 <= j < pos ==> is_digit(#[trigger] s[j]),
            !big ==> value == digits_value(s.take(pos as int)) && value <= u32::MAX,
            big ==> digits_value(s.take(pos as int)) > u32::MAX,
        decreases len - pos,
    {
        match digit_of(b[pos]) {
            Some(d) => {
                proof {
                    let t = s.take(pos + 1);
                    assert(t.drop_last() =~= s.take(pos as int));
                    assert(t.last() == s[pos as int]);
                }
                if !big {
                    value = value * 10 + d;
                    if value > u32::MAX as u64 {
                        big = true;
                    }
                }
                pos = pos + 1;
            },
            None => {
                proof {
                    assert(s[pos as int] == b@[pos as int]);
                    lemma_digit_run_prefix(s, pos as int);
                    assert(digit_run(s) == pos);
                    assert(id_text(s) is None);
                }
                return None;
            },
        }
    }
    proof {
        assert(s.take(len as int) =~= s);
        lemma_digit_run_prefix(s, len as int);
    }
    if len == 0 || big {
        None
    } else {
        Some(value as u32)
    }
}

/// Takes a numeric user ID, a numeric item ID and the rating out of one
/// row, at the given columns.
pub fn parse_rating_row(row: &Vec<String>, columns: (usize, usize, usize)) -> (r: Result<
    (u32, u32, Rating),
    ReadError,
>)
    ensures
        columns.0 >= row@.len() || columns.1 >= row@.len() || columns.2 >= row@.len() ==> r
            == Err::<(u32, u32, Rating), ReadError>(ReadError::MissingColumn),
        columns.0 < row@.len() && columns.1 < row@.len() && columns.2 < row@.len() ==> match r {
            Ok(rec) => id_text(encode_utf8(row@[columns.0 as int]@)) == Some(rec.0 as int)
                && id_text(encode_utf8(row@[columns.1 as int]@)) == Some(rec.1 as int)
                && rating_text(encode_utf8(row@[columns.2 as int]@)) == Some(rec.2 as int),
            Err(e) => (e == ReadError::BadId && (id_text(encode_utf8(row@[columns.0 as int]@))
                is None || id_text(encode_utf8(row@[columns.1 as int]@)) is None)) || (e
                == ReadError::BadRating && rating_text(encode_utf8(row@[columns.2 as int]@))
                is None),
        },
{
    let (u, i, k) = columns;
    if u >= row.len() || i >= row.len() || k >= row.len() {
        return Err(ReadError::MissingColumn);
    }
    let tu = row[u].as_str();
    let ti = row[i].as_str();
    let user = match parse_id(tu) {
        Some(x) => x,
        None => {
            return Err(ReadError::BadId);
        },
    };
    let item = match parse_id(ti) {
        Some(x) => x,
        None => {
            return Err(ReadError::BadId);
        },
    };
    proof {
        assert(tu@ == row@[u as int]@);
        assert(ti@ == row@[i as int]@);
        assert(id_text(encode_utf8(tu@)) == Some(user as int));
        assert(id_text(encode_utf8(row@[u as int]@)) == Some(user as int));
        assert(id_text(encode_utf8(row@[i as int]@)) == Some(item as int));
    }
    match parse_rating(row[k].as_str()) {
        Some(rating) => Ok((user, item, rating)),
        None => Err(ReadError::BadRating),
    }
}

/// Options when reading a csv file.
pub struct ReadOptions {
    fields: Vec<Field>,
    has_headers: bool,
    delimiter: char,
}

impl ReadOptions {
    pub closed spec fn field_seq(&self) -> Seq<Field> {
        self.fields@
    }

    pub closed spec fn spec_has_headers(&self) -> bool {
        self.has_headers
    }

    pub closed spec fn spec_delimiter(&self) -> char {
        self.delimiter
    }

    /// Assumes the csv file has no headers, uses `','` as delimiter and that
    /// the columns are in the order `UserID`, `ItemID`, `Rating`.
    pub fn default() -> (r: Self)
        ensures
            r.field_seq() == seq![Field::UserID, Field::ItemID, Field::Rating],
            !r.spec_has_headers(),
            r.spec_delimiter() == ',',
    {
        let r = Self {
            fields: vec![Field::UserID, Field::ItemID, Field::Rating],
            has_headers: false,
            delimiter: ',',
        };
        assert(r.fields@ =~= seq![Field::UserID, Field::ItemID, Field::Rating]);
        r
    }

    /// Constructor for custom options, for files whose columns are not in
    /// the `default` order, or that have headers or another delimiter.
    pub fn custom(fields: Vec<Field>, has_headers: bool, delimiter: char) -> (r: Self)
        ensures
            r.field_seq() == fields@,
            r.spec_has_headers() == has_headers,
            r.spec_delimiter() == delimiter,
    {
        Self { fields, has_headers, delimiter }
    }

    /// Whether the first row of the file holds headers.
    pub fn has_headers(&self) -> (r: bool)
        ensures
            r == self.spec_has_headers(),
    {
        self.has_headers
    }

    /// The character that separates the columns.
    pub fn delimiter(&self) -> (r: char)
        ensures
            r == self.spec_delimiter(),
    {
        self.delimiter
    }

    /// The columns that hold the user ID, the item ID and the rating: the
    /// last of each kind of field; an error when a kind is missing.
    pub fn columns(&self) -> (r: Result<(usize, usize, usize), ReadError>)
        ensures
            r == columns_of(self.field_seq()),
    {
        let n = self.fields.len();
        let mut user: usize = n;
        let mut item: usize = n;
        let mut rating: usize = n;
        let mut k: usize = 0;
        while k < n
            invariant
                n == self.fields@.len(),
                k <= n,
                user == (if last_position(self.fields@.take(k as int), Field::UserID) < 0 {
                    n as int
                } else {
                    last_position(self.fields@.take(k as int), Field::UserID)
                }),
                item == (if last_position(self.fields@.take(k as int), Field::ItemID) < 0 {
                    n as int
                } else {
                    last_position(self.fields@.take(k as int), Field::ItemID)
                }),
                rating == (if last_position(self.fields@.take(k as int), Field::Rating) < 0 {
                    n as int
                } else {
                    last_position(self.fields@.take(k as int), Field::Rating)
                }),
            decreases n - k,
        {
            proof {
                let pre = self.fields@.take(k + 1);
                assert(pre.drop_last() =~= self.fields@.take(k as int));
                lemma_last_position_bound(self.fields@.take(k as int), Field::UserID);
                lemma_last_position_bound(self.fields@.take(k as int), Field::ItemID);
                lemma_last_position_bound(self.fields@.take(k as int), Field::Rating);
            }
            match self.fields[k] {
                Field::UserID => user = k,
                Field::ItemID => item = k,
                Field::Rating => rating = k,
                Field::Other => {},
            }
            k = k + 1;
        }
        proof {
            assert(self.fields@.take(n as int) =~= self.fields@);
            lemma_last_position_bound(self.fields@, Field::UserID);
            lemma_last_position_bound(self.fields@, Field::ItemID);
            lemma_last_position_bound(self.fields@, Field::Rating);
        }
        if user == n || item == n || rating == n {
            Err(ReadError::InconsistentFields)
        } else {
            Ok((user, item, rating))
        }
    }
}

} // verus!
