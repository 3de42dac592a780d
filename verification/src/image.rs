//! Images: when they were taken and with which camera.
use vstd::prelude::*;

use vstd::utf8::{decode_utf8, valid_utf8};

use crate::extract::{nothing_found, Extraction};
use crate::text::{
    begins, is_blank, is_white, text_begins, text_view, trim_text, trimmed,
    white_space_around_is_taken_away,
};

verus! {

// Fields.

/// The parsed attributes of an image, of the `exif` crate.
#[verifier::external_type_specification]
#[verifier::external_body]
pub struct ExExif(exif::Exif);

/// The fields that are looked at.
#[derive(Debug, Clone, Copy, PartialEq, Eq, Structural)]
pub enum ImageTag {
    DateTimeOriginal,
    DateTime,
    Make,
    Model,
}

/// A field's value.
#[derive(Debug)]
pub enum FieldValue {
    /// Strings in bytes.
    Ascii(Vec<Vec<u8>>),
    /// A value of another type.
    Other,
}

/// A field's value.
pub enum FieldContent {
    Ascii(Seq<Seq<u8>>),
    Other,
}

impl View for FieldValue {
    type V = FieldContent;

    open spec fn view(&self) -> FieldContent {
        match *self {
            FieldValue::Ascii(strings) => FieldContent::Ascii(
                strings@.map_values(|s: Vec<u8>| s@),
            ),
            FieldValue::Other => FieldContent::Other,
        }
    }
}

pub open spec fn field_view(field: Option<FieldValue>) -> Option<FieldContent> {
    match field {
        Some(value) => Some(value@),
        None => None,
    }
}

/// Why an image's attributes could not be had.
#[derive(Debug)]
pub enum ImageError {
    /// The image has no attributes: an ordinary case.
    NotFound,
    /// The image or its attributes are malformed, in the words of the `exif`
    /// crate.
    Malformed(String),
}

/// What comes of reading an image's attributes.
pub enum Attributes {
    Found,
    NotFound,
    Malformed(Seq<char>),
}

/// The bytes that attributes were read from.
pub uninterp spec fn attributes_source(attributes: exif::Exif) -> Seq<u8>;

/// Whether the `exif` crate finds attributes in an image.
pub uninterp spec fn image_attributes(bytes: Seq<u8>) -> Attributes;

/// The field with the given tag that the `exif` crate finds in an image, in
/// the directory of its main picture.
pub uninterp spec fn image_field(bytes: Seq<u8>, tag: ImageTag) -> Option<FieldContent>;

/// `exif::Reader::read_from_container` finds and parses the attributes in an
/// image file.
#[verifier::external_body]
fn read_attributes(bytes: &[u8]) -> (r: Result<exif::Exif, ImageError>)
    ensures
        match r {
            Ok(attributes) => attributes_source(attributes) == bytes@ && image_attributes(bytes@)
                == Attributes::Found,
            Err(ImageError::NotFound) => image_attributes(bytes@) == Attributes::NotFound,
            Err(ImageError::Malformed(e)) => image_attributes(bytes@) == Attributes::Malformed(e@),
        },
{
    match exif::Reader::new().read_from_container(&mut std::io::Cursor::new(bytes)) {
        Ok(attributes) => Ok(attributes),
        Err(exif::Error::NotFound(_)) => Err(ImageError::NotFound),
        Err(e) => Err(ImageError::Malformed(e.to_string())),
    }
}

/// `exif::Exif::get_field` gives the field with a tag in the directory of the
/// main picture.
#[verifier::external_body]
fn field_of(attributes: &exif::Exif, tag: ImageTag) -> (r: Option<FieldValue>)
    ensures
        field_view(r) == image_field(attributes_source(*attributes), tag),
{
    let wanted = match tag {
        ImageTag::DateTimeOriginal => exif::Tag::DateTimeOriginal,
        ImageTag::DateTime => exif::Tag::DateTime,
        ImageTag::Make => exif::Tag::Make,
        ImageTag::Model => exif::Tag::Model,
    };
    match attributes.get_field(wanted, exif::In::PRIMARY) {
        Some(field) => match &field.value {
            exif::Value::Ascii(strings) => Some(FieldValue::Ascii(strings.clone())),
            _ => Some(FieldValue::Other),
        },
        None => None,
    }
}

// Texts.

/// What `String::from_utf8_lossy` makes of bytes that are not UTF-8.
pub uninterp spec fn repaired(bytes: Seq<u8>) -> Seq<char>;

/// The text of bytes that may not be UTF-8.
pub open spec fn lossy(bytes: Seq<u8>) -> Seq<char> {
    if valid_utf8(bytes) {
        decode_utf8(bytes)
    } else {
        repaired(bytes)
    }
}

/// `String::from_utf8_lossy` decodes UTF-8 and puts a replacement character
/// where it is not valid; where those come is only named.
#[verifier::external_body]
fn decode_lossy(bytes: &Vec<u8>) -> (r: String)
    ensures
        valid_utf8(bytes@) ==> r@ == decode_utf8(bytes@),
        !valid_utf8(bytes@) ==> r@ == repaired(bytes@),
{
    String::from_utf8_lossy(bytes).into_owned()
}

/// The text in a field: its first string without the white space around it,
/// where that is not empty.
pub open spec fn field_text(field: Option<FieldContent>) -> Option<Seq<char>> {
    match field {
        Some(FieldContent::Ascii(strings)) => if strings.len() > 0 && trimmed(
            lossy(strings[0]),
        ).len() > 0 {
            Some(trimmed(lossy(strings[0])))
        } else {
            None
        },
        _ => None,
    }
}

/// The text in a field.
pub fn ascii_field(field: &Option<FieldValue>) -> (r: Option<String>)
    ensures
        text_view(r) == field_text(field_view(*field)),
{
    match field {
        Some(FieldValue::Ascii(strings)) => {
            if strings.len() == 0 {
                return None;
            }
            assert(field_view(*field)->Some_0->Ascii_0[0] == strings@[0]@);
            let whole = decode_lossy(&strings[0]);
            let text = trim_text(whole.as_str());
            if text.as_str().is_empty() {
                None
            } else {
                Some(text)
            }
        },
        _ => None,
    }
}

/// A camera by its make and its model. Where the model begins with the very
/// make, it says enough.
pub open spec fn camera(make: Option<Seq<char>>, model: Option<Seq<char>>) -> Option<Seq<char>> {
    match (make, model) {
        (Some(make), Some(model)) => if begins(model, make) {
            Some(model)
        } else {
            Some(make + seq![' '] + model)
        },
        (Some(make), None) => Some(make),
        (None, model) => model,
    }
}

/// A camera by its make and its model.
pub fn join_make_model(make: Option<String>, model: Option<String>) -> (r: Option<String>)
    ensures
        text_view(r) == camera(text_view(make), text_view(model)),
{
    match (make, model) {
        (Some(make), Some(model)) => {
            if text_begins(model.as_str(), make.as_str()) {
                Some(model)
            } else {
                let mut out = make.clone();
                out.push(' ');
                out.append(model.as_str());
                assert(out@ =~= make@ + seq![' '] + model@);
                Some(out)
            }
        },
        (Some(make), None) => Some(make),
        (None, model) => model,
    }
}

// Times.

/// A date and a time of day.
#[derive(Debug, Clone, Copy, PartialEq, Eq, Structural)]
pub struct Calendar {
    pub year: u16,
    pub month: u8,
    pub day: u8,
    pub hour: u8,
    pub minute: u8,
    pub second: u8,
}

/// Whether the bytes in a range are decimal digits.
pub open spec fn digits_at(data: Seq<u8>, from: int, to: int) -> bool {
    forall|k: int| from <= k < to ==> 48 <= #[trigger] data[k] <= 57
}

/// The number that two digits make.
pub open spec fn two_digits(data: Seq<u8>, at: int) -> int {
    (data[at] - 48) * 10 + (data[at + 1] - 48)
}

/// Whether bytes begin with a date and a time, "YYYY:MM:DD HH:MM:SS".
pub open spec fn is_datetime(data: Seq<u8>) -> bool {
    &&& data.len() >= 19
    &&& data[4] == 58 && data[7] == 58 && data[10] == 32 && data[13] == 58 && data[16] == 58
    &&& digits_at(data, 0, 4) && digits_at(data, 5, 7) && digits_at(data, 8, 10)
    &&& digits_at(data, 11, 13) && digits_at(data, 14, 16) && digits_at(data, 17, 19)
}

/// `exif::DateTime::from_ascii` reads a date and a time of the form
/// "YYYY:MM:DD HH:MM:SS" and refuses anything else; it does not look at whether
/// the numbers make sense.
#[verifier::external_body]
fn parse_datetime(data: &Vec<u8>) -> (r: Option<Calendar>)
    ensures
        match r {
            Some(c) => is_datetime(data@) && c.year == two_digits(data@, 0) * 100 + two_digits(
                data@,
                2,
            ) && c.month == two_digits(data@, 5) && c.day == two_digits(data@, 8) && c.hour
                == two_digits(data@, 11) && c.minute == two_digits(data@, 14) && c.second
                == two_digits(data@, 17),
            None => !is_datetime(data@),
        },
{
    exif::DateTime::from_ascii(data).ok().map(|d| Calendar {
        year: d.year,
        month: d.month,
        day: d.day,
        hour: d.hour,
        minute: d.minute,
        second: d.second,
    })
}

/// Whether a year has a leap day.
pub open spec fn is_leap(year: int) -> bool {
    year % 4 == 0 && (year % 100 != 0 || year % 400 == 0)
}

/// How many days a month has.
pub open spec fn month_days(year: int, month: int) -> int {
    if month == 2 {
        if is_leap(year) {
            29
        } else {
            28
        }
    } else if month == 4 || month == 6 || month == 9 || month == 11 {
        30
    } else {
        31
    }
}

/// How many days of a year come before a month.
pub open spec fn days_before_month(year: int, month: int) -> int
    decreases month,
{
    if month <= 1 {
        0
    } else {
        days_before_month(year, month - 1) + month_days(year, month - 1)
    }
}

/// How many days lie between the first day of the year 1 and the first day of
/// a year: one more than a common year has for each year with a leap day.
pub open spec fn days_before_year(year: int) -> int {
    365 * (year - 1) + (year - 1) / 4 - (year - 1) / 100 + (year - 1) / 400
}

/// The number of a day, counted from the first day of 1970. A day beyond the
/// end of its month counts on into the next.
pub open spec fn day_number(year: int, month: int, day: int) -> int {
    days_before_year(year) + days_before_month(year, month) + day - 1 - days_before_year(1970)
}

/// The seconds that have passed since the beginning of 1970, where the fields
/// stand for a date and a time at all.
pub open spec fn unix_seconds(
    year: int,
    month: int,
    day: int,
    hour: int,
    minute: int,
    second: int,
) -> Option<int> {
    if 1 <= month <= 12 && 1 <= day <= 31 && hour <= 23 && minute <= 59 && second <= 60 {
        Some(day_number(year, month, day) * 86_400 + hour * 3600 + minute * 60 + second)
    } else {
        None
    }
}

/// The days of the months before a month, written out.
proof fn lemma_days_before_month(year: int, month: int)
    requires
        1 <= month <= 12,
    ensures
        days_before_month(year, month) == (if month <= 2 {
            31 * (month - 1)
        } else {
            (153 * (month - 3) + 2) / 5 + (if is_leap(year) {
                60int
            } else {
                59int
            })
        }),
{
    reveal_with_fuel(days_before_month, 12);
}

/// One year more adds a quotient of `d` exactly where it is divisible by `d`.
proof fn lemma_quotient_steps(n: int, d: int)
    requires
        d == 4 || d == 100 || d == 400,
    ensures
        n / d - (n - 1) / d == (if n % d == 0 {
            1int
        } else {
            0int
        }),
{
    if d == 4 {
    } else if d == 100 {
    } else {
    }
}

/// A year is as long as its months together.
proof fn lemma_year_length(year: int)
    ensures
        days_before_year(year + 1) - days_before_year(year) == (if is_leap(year) {
            366int
        } else {
            365int
        }),
{
    lemma_quotient_steps(year, 4);
    lemma_quotient_steps(year, 100);
    lemma_quotient_steps(year, 400);
    lemma_divisors(year);
}

/// What 400 divides 100 divides too, and what 100 divides 4 divides too.
proof fn lemma_divisors(year: int)
    ensures
        year % 400 == 0 ==> year % 100 == 0,
        year % 100 == 0 ==> year % 4 == 0,
{
    if year % 400 == 0 {
        let q = 4 * (year / 400);
        assert(year == q * 100);
        vstd::arithmetic::div_mod::lemma_mod_multiples_basic(q, 100);
    }
    if year % 100 == 0 {
        let q = 25 * (year / 100);
        assert(year == q * 4);
        vstd::arithmetic::div_mod::lemma_mod_multiples_basic(q, 4);
    }
}

/// The first day of March, by the four hundred years and the year in them that
/// count from March on.
proof fn lemma_march(y: int, era: int, yoe: int)
    requires
        y == 400 * era + yoe,
        0 <= yoe < 400,
    ensures
        days_before_year(y + 1) == era * 146_097 + yoe * 365 + yoe / 4 - yoe / 100,
{
    assert(y / 4 == 100 * era + yoe / 4);
    assert(y / 100 == 4 * era + yoe / 100);
    assert(y / 400 == era);
}

/// The number of a day, by the year that begins in March.
proof fn lemma_day_formula(year: int, month: int, day: int, y: int, mp: int)
    requires
        1 <= month <= 12,
        y == (if month <= 2 {
            year - 1
        } else {
            year
        }),
        mp == (if month <= 2 {
            month + 9
        } else {
            month - 3
        }),
    ensures
        day_number(year, month, day) == days_before_year(y + 1) + (153 * mp + 2) / 5 + day - 1
            - 719_468,
{
    lemma_days_before_month(year, month);
    lemma_year_length(year);
    if month == 1 {
    } else if month == 2 {
    } else {
    }
}

/// The date and the time as seconds since the beginning of 1970; `None` where
/// the fields do not stand for a date and a time.
pub fn civil_to_unix(
    year: i64,
    month: i64,
    day: i64,
    hour: u8,
    minute: u8,
    second: u8,
) -> (r: Option<i64>)
    requires
        -290_000_000_000 <= year <= 290_000_000_000,
    ensures
        match unix_seconds(
            year as int,
            month as int,
            day as int,
            hour as int,
            minute as int,
            second as int,
        ) {
            Some(t) => r is Some && r.unwrap() == t,
            None => r is None,
        },
{
    if month < 1 || month > 12 || day < 1 || day > 31 {
        return None;
    }
    if hour > 23 || minute > 59 || second > 60 {
        return None;
    }
    let y: i64 = if month <= 2 {
        year - 1
    } else {
        year
    };
    let era: i64 = if y >= 0 {
        y / 400
    } else {
        -((399 - y) / 400)
    };
    assert(era * 400 <= y < era * 400 + 400);
    let yoe: i64 = y - era * 400;
    let mp: i64 = if month <= 2 {
        month + 9
    } else {
        month - 3
    };
    let doy: i64 = (153 * mp + 2) / 5 + day - 1;
    assert(0 <= doy <= 400);
    let doe: i64 = yoe * 365 + yoe / 4 - yoe / 100 + doy;
    assert(0 <= doe <= 200_000);
    assert(-725_000_001 <= era <= 725_000_001);
    let days: i64 = era * 146_097 + doe - 719_468;
    proof {
        lemma_march(y as int, era as int, yoe as int);
        lemma_day_formula(year as int, month as int, day as int, y as int, mp as int);
    }
    Some(days * 86_400 + hour as i64 * 3600 + minute as i64 * 60 + second as i64)
}

/// The first day of 1970 has number 0, and every other day has the number that
/// follows that of the day before it: within a month, from one month to the
/// next, and from one year to the next.
pub proof fn days_are_numbered_in_order(year: int, month: int, day: int)
    requires
        1 <= month <= 12,
    ensures
        day_number(1970, 1, 1) == 0,
        day_number(year, month, day + 1) == day_number(year, month, day) + 1,
        month < 12 ==> day_number(year, month + 1, 1) == day_number(
            year,
            month,
            month_days(year, month),
        ) + 1,
        day_number(year + 1, 1, 1) == day_number(year, 12, 31) + 1,
{
    lemma_days_before_month(year, 12);
    lemma_year_length(year);
}

/// The time in a field; nothing where the field does not hold one.
pub open spec fn field_time(field: Option<FieldContent>) -> Option<int> {
    match field {
        Some(FieldContent::Ascii(strings)) => if strings.len() > 0 && is_datetime(strings[0]) {
            let data = strings[0];
            unix_seconds(
                two_digits(data, 0) * 100 + two_digits(data, 2),
                two_digits(data, 5),
                two_digits(data, 8),
                two_digits(data, 11),
                two_digits(data, 14),
                two_digits(data, 17),
            )
        } else {
            None
        },
        _ => None,
    }
}

/// The time in a field.
pub fn datetime_field_to_unix(field: &Option<FieldValue>) -> (r: Option<i64>)
    ensures
        match field_time(field_view(*field)) {
            Some(t) => r is Some && r.unwrap() == t,
            None => r is None,
        },
{
    match field {
        Some(FieldValue::Ascii(strings)) => {
            if strings.len() == 0 {
                return None;
            }
            assert(field_view(*field)->Some_0->Ascii_0[0] == strings@[0]@);
            match parse_datetime(&strings[0]) {
                Some(c) => civil_to_unix(
                    c.year as i64,
                    c.month as i64,
                    c.day as i64,
                    c.hour,
                    c.minute,
                    c.second,
                ),
                None => None,
            }
        },
        _ => None,
    }
}

// Images.

/// Whether an extraction says what an image's fields say, and nothing else. A
/// time of exposure counts before a time of change, even where it is no time.
pub open spec fn describes_image(
    e: Extraction,
    original: Option<FieldContent>,
    changed: Option<FieldContent>,
    make: Option<FieldContent>,
    model: Option<FieldContent>,
) -> bool {
    let taken = field_time(
        if original is Some {
            original
        } else {
            changed
        },
    );
    &&& match taken {
        Some(t) => e.image_taken_at_unix is Some && e.image_taken_at_unix.unwrap() == t,
        None => e.image_taken_at_unix is None,
    }
    &&& text_view(e.image_camera_model) == camera(field_text(make), field_text(model))
    &&& e == (Extraction {
        image_taken_at_unix: e.image_taken_at_unix,
        image_camera_model: e.image_camera_model,
        ..nothing_found()
    })
}

/// Put together what an image's fields say.
pub fn describe_image(
    original: &Option<FieldValue>,
    changed: &Option<FieldValue>,
    make: &Option<FieldValue>,
    model: &Option<FieldValue>,
) -> (r: Extraction)
    ensures
        describes_image(
            r,
            field_view(*original),
            field_view(*changed),
            field_view(*make),
            field_view(*model),
        ),
{
    let mut e = Extraction::default();
    e.image_taken_at_unix = if original.is_some() {
        datetime_field_to_unix(original)
    } else {
        datetime_field_to_unix(changed)
    };
    let make = ascii_field(make);
    let model = ascii_field(model);
    e.image_camera_model = join_make_model(make, model);
    e
}

/// Whether `r` is what is to be had of an image: its fields, nothing where it
/// has none, and the reason where it is malformed.
pub open spec fn is_image_outcome(r: Result<Extraction, String>, bytes: Seq<u8>) -> bool {
    match image_attributes(bytes) {
        Attributes::Found => match r {
            Ok(e) => describes_image(
                e,
                image_field(bytes, ImageTag::DateTimeOriginal),
                image_field(bytes, ImageTag::DateTime),
                image_field(bytes, ImageTag::Make),
                image_field(bytes, ImageTag::Model),
            ),
            Err(_) => false,
        },
        Attributes::NotFound => match r {
            Ok(e) => e == nothing_found(),
            Err(_) => false,
        },
        Attributes::Malformed(reason) => match r {
            Ok(_) => false,
            Err(e) => e@ == reason,
        },
    }
}

/// Extract what an image's attributes hold.
pub fn extract_image(bytes: &[u8]) -> (r: Result<Extraction, String>)
    ensures
        is_image_outcome(r, bytes@),
{
    match read_attributes(bytes) {
        Ok(attributes) => {
            let original = field_of(&attributes, ImageTag::DateTimeOriginal);
            let changed = field_of(&attributes, ImageTag::DateTime);
            let make = field_of(&attributes, ImageTag::Make);
            let model = field_of(&attributes, ImageTag::Model);
            Ok(describe_image(&original, &changed, &make, &model))
        },
        Err(ImageError::NotFound) => Ok(Extraction::default()),
        Err(ImageError::Malformed(e)) => Err(e),
    }
}

// Laws.

/// A camera is named by its make and its model, with a space between them. Where the model
/// begins with the make, the make is not said twice. Where one of them is not known, the
/// other is enough.
pub proof fn a_camera_is_named_by_make_and_model(make: Seq<char>, model: Seq<char>, rest: Seq<char>)
    ensures
        camera(Some(make), Some(make + rest)) == Some(make + rest),
        !make.is_prefix_of(model) ==> camera(Some(make), Some(model)) == Some(
            make + seq![' '] + model,
        ),
        camera(Some(make), None) == Some(make),
        camera(None, Some(model)) == Some(model),
        camera(None, None) is None,
{
    assert((make + rest).take(make.len() as int) =~= make);
    if begins(model, make) {
        assert(model.subrange(0, make.len() as int) =~= model.take(make.len() as int));
        assert(make.is_prefix_of(model));
    }
}

/// Times are told apart by the seconds between them: an hour has 3600 of them, a minute
/// 60, and a day 86400. The months have their lengths, February a day more in years that 4
/// divides and, of those that 100 divides, 400 too. The beginning of 1970 is zero.
pub proof fn seconds_are_counted_from_1970(
    year: int,
    month: int,
    day: int,
    hour: int,
    minute: int,
    second: int,
)
    requires
        1 <= month <= 12,
        1 <= day <= 31,
        0 <= hour <= 23,
        0 <= minute <= 59,
        0 <= second <= 60,
    ensures
        ({
            let midnight = unix_seconds(year, month, day, 0, 0, 0);
            let first = unix_seconds(year, month, 1, 0, 0, 0);
            let next = if month == 12 {
                unix_seconds(year + 1, 1, 1, 0, 0, 0)
            } else {
                unix_seconds(year, month + 1, 1, 0, 0, 0)
            };
            let days: int = if month == 2 {
                if year % 400 == 0 || (year % 4 == 0 && year % 100 != 0) {
                    29
                } else {
                    28
                }
            } else if month == 4 || month == 6 || month == 9 || month == 11 {
                30
            } else {
                31
            };
            &&& unix_seconds(1970, 1, 1, 0, 0, 0) == Some(0int)
            &&& midnight is Some && first is Some && next is Some
            &&& unix_seconds(year, month, day, hour, minute, second) == Some(
                midnight->0 + 3600 * hour + 60 * minute + second,
            )
            &&& midnight->0 == first->0 + 86400 * (day - 1)
            &&& next->0 == first->0 + 86400 * days
        }),
{
    days_are_numbered_in_order(year, month, day);
    lemma_divisors(year);
    lemma_year_length(year);
    lemma_days_before_month(year, 12);
}

/// What is no date or no time of day is none: a month but 1 to 12, a day but 1 to 31, an
/// hour behind 23, a minute behind 59, a second behind 60.
pub proof fn what_is_no_time_is_not_taken_for_one(
    year: int,
    month: int,
    day: int,
    hour: int,
    minute: int,
    second: int,
)
    requires
        0 <= hour,
        0 <= minute,
        0 <= second,
    ensures
        unix_seconds(year, month, day, hour, minute, second) is None <==> month < 1 || month > 12
            || day < 1 || day > 31 || hour > 23 || minute > 59 || second > 60,
{
}

/// The byte of a digit.
pub open spec fn digit_byte(d: int) -> u8 {
    (48 + d) as u8
}

/// A date and a time as an image holds them.
pub open spec fn written_time(
    year: int,
    month: int,
    day: int,
    hour: int,
    minute: int,
    second: int,
) -> Seq<u8> {
    seq![
        digit_byte(year / 1000),
        digit_byte(year / 100 % 10),
        digit_byte(year / 10 % 10),
        digit_byte(year % 10),
        58u8,
        digit_byte(month / 10),
        digit_byte(month % 10),
        58u8,
        digit_byte(day / 10),
        digit_byte(day % 10),
        32u8,
        digit_byte(hour / 10),
        digit_byte(hour % 10),
        58u8,
        digit_byte(minute / 10),
        digit_byte(minute % 10),
        58u8,
        digit_byte(second / 10),
        digit_byte(second % 10),
    ]
}

/// A time that is written in a field is read as that time, whatever follows it.
pub proof fn a_written_time_is_read(
    year: int,
    month: int,
    day: int,
    hour: int,
    minute: int,
    second: int,
    rest: Seq<u8>,
    more: Seq<Seq<u8>>,
)
    requires
        0 <= year <= 9999,
        0 <= month <= 99,
        0 <= day <= 99,
        0 <= hour <= 99,
        0 <= minute <= 99,
        0 <= second <= 99,
    ensures
        field_time(
            Some(
                FieldContent::Ascii(
                    seq![written_time(year, month, day, hour, minute, second) + rest] + more,
                ),
            ),
        ) == unix_seconds(year, month, day, hour, minute, second),
{
    let data = written_time(year, month, day, hour, minute, second) + rest;
    let strings = seq![data] + more;
    assert(strings[0] == data);
    assert(data[4] == 58 && data[7] == 58 && data[10] == 32 && data[13] == 58 && data[16] == 58);
    assert(data[0] == 48 + year / 1000 && data[1] == 48 + year / 100 % 10);
    assert(data[2] == 48 + year / 10 % 10 && data[3] == 48 + year % 10);
    assert(data[5] == 48 + month / 10 && data[6] == 48 + month % 10);
    assert(data[8] == 48 + day / 10 && data[9] == 48 + day % 10);
    assert(data[11] == 48 + hour / 10 && data[12] == 48 + hour % 10);
    assert(data[14] == 48 + minute / 10 && data[15] == 48 + minute % 10);
    assert(data[17] == 48 + second / 10 && data[18] == 48 + second % 10);
    assert(digits_at(data, 0, 4) && digits_at(data, 5, 7) && digits_at(data, 8, 10));
    assert(digits_at(data, 11, 13) && digits_at(data, 14, 16) && digits_at(data, 17, 19));
    assert(is_datetime(data));
    assert(two_digits(data, 0) * 100 + two_digits(data, 2) == year);
}

/// An image was taken when it was exposed; the time of its last change counts only where
/// there is no field for the exposure. Its camera is what the fields for the make and for
/// the model say, and nothing else is known of it.
pub proof fn an_exposure_counts_before_a_change(
    e: Extraction,
    original: FieldContent,
    changed: Option<FieldContent>,
    make: Option<FieldContent>,
    model: Option<FieldContent>,
    other: Extraction,
)
    requires
        describes_image(e, Some(original), changed, make, model),
        describes_image(other, None, changed, make, model),
    ensures
        e.image_taken_at_unix is Some <==> field_time(Some(original)) is Some,
        e.image_taken_at_unix is Some ==> e.image_taken_at_unix->0 == field_time(
            Some(original),
        )->0,
        other.image_taken_at_unix is Some <==> field_time(changed) is Some,
        other.image_taken_at_unix is Some ==> other.image_taken_at_unix->0 == field_time(
            changed,
        )->0,
        text_view(e.image_camera_model) == camera(field_text(make), field_text(model)),
        e.title is None && e.author is None && e.body_text is None && e.page_count is None
            && e.word_count is None && e.language is None,
{
}

/// A field's text is its first string without the white space around it; a field that
/// holds nothing else says nothing.
pub proof fn a_field_says_its_first_string(
    before: Seq<char>,
    inner: Seq<char>,
    behind: Seq<char>,
    first: Seq<u8>,
    more: Seq<Seq<u8>>,
)
    requires
        lossy(first) == before + inner + behind,
        is_blank(before),
        is_blank(behind),
        inner.len() > 0 ==> !is_white(inner[0]) && !is_white(inner.last()),
    ensures
        field_text(Some(FieldContent::Ascii(seq![first] + more))) == (if inner.len() > 0 {
            Some(inner)
        } else {
            None
        }),
        field_text(Some(FieldContent::Ascii(Seq::empty()))) is None,
        field_text(Some(FieldContent::Other)) is None,
        field_text(None) is None,
{
    white_space_around_is_taken_away(before, inner, behind);
    assert((seq![first] + more)[0] == first);
}

} // verus!
